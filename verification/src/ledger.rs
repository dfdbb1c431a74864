use vstd::prelude::*;

use crate::amount::amount_chars;
use crate::amount::append_amount;
use crate::amount::Amount;
use crate::swedbank::append_date;
use crate::swedbank::date_chars;

verus! {

/// The expected balance of the account after a posting.
pub struct BalanceAssertion {
    pub amount: Amount,
    pub currency: String,
}

/// One leg of an entry: an account path with a signed amount.
pub struct Transaction {
    pub account_path: String,
    pub amount: Amount,
    pub currency: String,
    pub balance_assertion: Option<BalanceAssertion>,
    pub comment: Option<String>,
}

/// One dated group of balanced postings.
pub struct Entry {
    pub primary_date: crate::swedbank::Date,
    pub secondary_date: Option<crate::swedbank::Date>,
    pub description: String,
    pub comments: Vec<String>,
    pub transactions: Vec<Transaction>,
}

/// The text of one entry comment line: a tabbed `; ` prefix, then the text.
pub open spec fn comment_chars(c: Seq<char>) -> Seq<char> {
    "\t; "@ + c + "\n"@
}

pub open spec fn comments_chars(cs: Seq<String>) -> Seq<char>
    decreases cs.len(),
{
    if cs.len() == 0 {
        Seq::empty()
    } else {
        comments_chars(cs.drop_last()) + comment_chars(cs.last()@)
    }
}

/// The text of one transaction line: tab, account path, tab, amount, space,
/// currency, an optional `; ` comment, newline.
pub open spec fn transaction_chars(t: Transaction) -> Seq<char> {
    "\t"@ + t.account_path@ + "\t"@ + amount_chars(t.amount) + " "@ + t.currency@ + (
    match t.comment {
        Some(c) => " ; "@ + c@,
        None => Seq::empty(),
    }) + "\n"@
}

pub open spec fn transactions_chars(ts: Seq<Transaction>) -> Seq<char>
    decreases ts.len(),
{
    if ts.len() == 0 {
        Seq::empty()
    } else {
        transactions_chars(ts.drop_last()) + transaction_chars(ts.last())
    }
}

/// The header line: primary date, `=` and the secondary date exactly when one
/// is present, a space, the description, newline.
pub open spec fn header_chars(e: Entry) -> Seq<char> {
    date_chars(e.primary_date) + (match e.secondary_date {
        Some(d) => "="@ + date_chars(d),
        None => Seq::empty(),
    }) + " "@ + e.description@ + "\n"@
}

/// The whole canonical text of an entry.
pub open spec fn entry_chars(e: Entry) -> Seq<char> {
    header_chars(e) + comments_chars(e.comments@) + transactions_chars(e.transactions@)
}

impl Entry {
    /// Every transaction amount is in range, so the entry can be rendered.
    pub open spec fn render_ready(self) -> bool {
        forall|i: int|
            0 <= i < self.transactions@.len() ==> (#[trigger] self.transactions@[i]).amount.wf()
    }

    /// The double-entry balance invariant: exactly two legs whose amounts
    /// are exact additive inverses at one scale.
    pub open spec fn balanced(self) -> bool {
        &&& self.transactions@.len() == 2
        &&& self.transactions@[0].amount.value() + self.transactions@[1].amount.value() == 0
        &&& self.transactions@[0].amount.scale == self.transactions@[1].amount.scale
    }

    /// Renders the entry in its canonical ledger text form.
    pub fn render(&self) -> (r: String)
        requires
            self.render_ready(),
        ensures
            r@ == entry_chars(*self),
    {
        let mut r = String::new();
        append_date(&mut r, &self.primary_date);
        match &self.secondary_date {
            Some(d) => {
                r.append("=");
                append_date(&mut r, d);
            },
            None => {},
        }
        r.append(" ");
        r.append(self.description.as_str());
        r.append("\n");
        proof {
            assert(r@ =~= header_chars(*self));
        }
        let mut i: usize = 0;
        while i < self.comments.len()
            invariant
                i <= self.comments@.len(),
                r@ == header_chars(*self) + comments_chars(self.comments@.take(i as int)),
            decreases self.comments@.len() - i,
        {
            r.append("\t; ");
            r.append(self.comments[i].as_str());
            r.append("\n");
            proof {
                let pre = self.comments@.take(i as int);
                let post = self.comments@.take(i as int + 1);
                assert(post.drop_last() =~= pre);
                assert(post.last() == self.comments@[i as int]);
                assert(comments_chars(post) == comments_chars(pre) + comment_chars(
                    self.comments@[i as int]@,
                ));
                assert(r@ =~= header_chars(*self) + comments_chars(post));
            }
            i = i + 1;
        }
        proof {
            assert(self.comments@.take(self.comments@.len() as int) =~= self.comments@);
        }
        let mut j: usize = 0;
        while j < self.transactions.len()
            invariant
                j <= self.transactions@.len(),
                self.render_ready(),
                r@ == header_chars(*self) + comments_chars(self.comments@) + transactions_chars(
                    self.transactions@.take(j as int),
                ),
            decreases self.transactions@.len() - j,
        {
            let t = &self.transactions[j];
            r.append("\t");
            r.append(t.account_path.as_str());
            r.append("\t");
            append_amount(&mut r, &t.amount);
            r.append(" ");
            r.append(t.currency.as_str());
            match &t.comment {
                Some(c) => {
                    r.append(" ; ");
                    r.append(c.as_str());
                },
                None => {},
            }
            r.append("\n");
            proof {
                let pre = self.transactions@.take(j as int);
                let post = self.transactions@.take(j as int + 1);
                assert(post.drop_last() =~= pre);
                assert(post.last() == self.transactions@[j as int]);
                assert(transactions_chars(post) == transactions_chars(pre) + transaction_chars(
                    self.transactions@[j as int],
                ));
                assert(r@ =~= header_chars(*self) + comments_chars(self.comments@)
                    + transactions_chars(post));
            }
            j = j + 1;
        }
        proof {
            assert(self.transactions@.take(self.transactions@.len() as int)
                =~= self.transactions@);
            assert(r@ =~= entry_chars(*self));
        }
        r
    }
}

} // verus!
