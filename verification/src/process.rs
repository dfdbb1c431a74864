use vstd::prelude::*;

use crate::amount::amount_chars;
use crate::ledger::comment_chars;
use crate::ledger::comments_chars;
use crate::ledger::entry_chars;
use crate::ledger::transaction_chars;
use crate::ledger::transactions_chars;
use crate::ledger::BalanceAssertion;
use crate::ledger::Entry;
use crate::ledger::Transaction;
use crate::swedbank::date_chars;
use crate::swedbank::Date;
use crate::swedbank::SwedbankRow;
use crate::text::append_digits;
use crate::text::dec_digits;

verus! {

/// The mapping a list of string pairs denotes: later entries override
/// earlier ones with the same key.
pub open spec fn str_map_of(s: Seq<(String, String)>) -> Map<Seq<char>, Seq<char>>
    decreases s.len(),
{
    if s.len() == 0 {
        Map::empty()
    } else {
        str_map_of(s.drop_last()).insert(s.last().0@, s.last().1@)
    }
}

/// The mapping a list of number-pair aliases denotes.
pub open spec fn acct_map_of(s: Seq<(u32, u32, String)>) -> Map<(u32, u32), Seq<char>>
    decreases s.len(),
{
    if s.len() == 0 {
        Map::empty()
    } else {
        acct_map_of(s.drop_last()).insert((s.last().0, s.last().1), s.last().2@)
    }
}

proof fn lemma_str_map_found(s: Seq<(String, String)>, j: int, k: Seq<char>)
    requires
        0 <= j < s.len(),
        s[j].0@ == k,
        forall|l: int| j < l < s.len() ==> (#[trigger] s[l]).0@ != k,
    ensures
        str_map_of(s).contains_key(k),
        str_map_of(s)[k] == s[j].1@,
    decreases s.len(),
{
    if j == s.len() - 1 {
    } else {
        assert(s.drop_last()[j] == s[j]);
        assert(forall|l: int|
            j < l < s.drop_last().len() ==> (#[trigger] s.drop_last()[l]).0@ != k);
        lemma_str_map_found(s.drop_last(), j, k);
        assert(s.last().0@ != k);
    }
}

proof fn lemma_str_map_absent(s: Seq<(String, String)>, k: Seq<char>)
    requires
        forall|l: int| 0 <= l < s.len() ==> (#[trigger] s[l]).0@ != k,
    ensures
        !str_map_of(s).contains_key(k),
    decreases s.len(),
{
    if s.len() > 0 {
        assert(forall|l: int|
            0 <= l < s.drop_last().len() ==> (#[trigger] s.drop_last()[l]).0@ != k);
        lemma_str_map_absent(s.drop_last(), k);
        assert(s.last().0@ != k);
    }
}

proof fn lemma_acct_map_found(s: Seq<(u32, u32, String)>, j: int, k: (u32, u32))
    requires
        0 <= j < s.len(),
        (s[j].0, s[j].1) == k,
        forall|l: int| j < l < s.len() ==> ((#[trigger] s[l]).0, s[l].1) != k,
    ensures
        acct_map_of(s).contains_key(k),
        acct_map_of(s)[k] == s[j].2@,
    decreases s.len(),
{
    if j == s.len() - 1 {
    } else {
        assert(s.drop_last()[j] == s[j]);
        assert(forall|l: int|
            j < l < s.drop_last().len() ==> ((#[trigger] s.drop_last()[l]).0, s.drop_last()[l].1)
                != k);
        lemma_acct_map_found(s.drop_last(), j, k);
        assert((s.last().0, s.last().1) != k);
    }
}

proof fn lemma_acct_map_absent(s: Seq<(u32, u32, String)>, k: (u32, u32))
    requires
        forall|l: int| 0 <= l < s.len() ==> ((#[trigger] s[l]).0, s[l].1) != k,
    ensures
        !acct_map_of(s).contains_key(k),
    decreases s.len(),
{
    if s.len() > 0 {
        assert(forall|l: int|
            0 <= l < s.drop_last().len() ==> ((#[trigger] s.drop_last()[l]).0, s.drop_last()[l].1)
                != k);
        lemma_acct_map_absent(s.drop_last(), k);
        assert((s.last().0, s.last().1) != k);
    }
}

/// Looks a key up among string pairs; the last binding of a key wins.
fn lookup_str(v: &Vec<(String, String)>, key: &str) -> (r: Option<String>)
    ensures
        match r {
            Some(s) => str_map_of(v@).contains_key(key@) && s@ == str_map_of(v@)[key@],
            None => !str_map_of(v@).contains_key(key@),
        },
{
    let k: String = key.to_owned();
    let mut i: usize = v.len();
    while i > 0
        invariant
            i <= v@.len(),
            k@ == key@,
            forall|l: int| i <= l < v@.len() ==> (#[trigger] v@[l]).0@ != key@,
        decreases i,
    {
        i = i - 1;
        if v[i].0 == k {
            proof {
                lemma_str_map_found(v@, i as int, key@);
            }
            return Some(v[i].1.clone());
        }
    }
    proof {
        lemma_str_map_absent(v@, key@);
    }
    None
}

/// Looks a clearing/account number pair up among aliases.
fn lookup_acct(v: &Vec<(u32, u32, String)>, cl: u32, acc: u32) -> (r: Option<String>)
    ensures
        match r {
            Some(s) => acct_map_of(v@).contains_key((cl, acc)) && s@ == acct_map_of(v@)[
                (cl, acc)
            ],
            None => !acct_map_of(v@).contains_key((cl, acc)),
        },
{
    let mut i: usize = v.len();
    while i > 0
        invariant
            i <= v@.len(),
            forall|l: int| i <= l < v@.len() ==> ((#[trigger] v@[l]).0, v@[l].1) != (cl, acc),
        decreases i,
    {
        i = i - 1;
        if v[i].0 == cl && v[i].1 == acc {
            proof {
                lemma_acct_map_found(v@, i as int, (cl, acc));
            }
            return Some(v[i].2.clone());
        }
    }
    proof {
        lemma_acct_map_absent(v@, (cl, acc));
    }
    None
}

/// The name-mapping configuration: top-level category names, per-description
/// account overrides, and per-account-number aliases. Immutable during a
/// conversion run; every lookup has a total fallback.
pub struct Record2Entry {
    general: Vec<(String, String)>,
    descriptions: Vec<(String, String)>,
    accounts: Vec<(u32, u32, String)>,
}

impl Record2Entry {
    /// The category-name mapping this configuration denotes.
    pub closed spec fn general_map(self) -> Map<Seq<char>, Seq<char>> {
        str_map_of(self.general@)
    }

    /// The description-override mapping this configuration denotes.
    pub closed spec fn descriptions_map(self) -> Map<Seq<char>, Seq<char>> {
        str_map_of(self.descriptions@)
    }

    /// The account-alias mapping this configuration denotes, keyed by the
    /// clearing and account number pair.
    pub closed spec fn accounts_map(self) -> Map<(u32, u32), Seq<char>> {
        acct_map_of(self.accounts@)
    }

    /// The empty configuration: every lookup falls back to its default.
    pub fn new() -> (r: Self)
        ensures
            r.general_map() == Map::<Seq<char>, Seq<char>>::empty(),
            r.descriptions_map() == Map::<Seq<char>, Seq<char>>::empty(),
            r.accounts_map() == Map::<(u32, u32), Seq<char>>::empty(),
    {
        Record2Entry { general: Vec::new(), descriptions: Vec::new(), accounts: Vec::new() }
    }

    /// Binds a category key (such as `Assets`) to a display name.
    pub fn set_general(&mut self, key: String, name: String)
        ensures
            final(self).general_map() == old(self).general_map().insert(key@, name@),
            final(self).descriptions_map() == old(self).descriptions_map(),
            final(self).accounts_map() == old(self).accounts_map(),
    {
        proof {
            assert(old(self).general@.push((key, name)).drop_last() =~= old(self).general@);
        }
        self.general.push((key, name));
    }

    /// Binds an exact description to an override account-path suffix.
    pub fn set_description(&mut self, desc: String, account: String)
        ensures
            final(self).descriptions_map() == old(self).descriptions_map().insert(
                desc@,
                account@,
            ),
            final(self).general_map() == old(self).general_map(),
            final(self).accounts_map() == old(self).accounts_map(),
    {
        proof {
            assert(old(self).descriptions@.push((desc, account)).drop_last() =~= old(
                self,
            ).descriptions@);
        }
        self.descriptions.push((desc, account));
    }

    /// Binds a clearing and account number pair to an alias.
    pub fn set_account(&mut self, clearing: u32, account: u32, alias: String)
        ensures
            final(self).accounts_map() == old(self).accounts_map().insert(
                (clearing, account),
                alias@,
            ),
            final(self).general_map() == old(self).general_map(),
            final(self).descriptions_map() == old(self).descriptions_map(),
    {
        proof {
            assert(old(self).accounts@.push((clearing, account, alias)).drop_last() =~= old(
                self,
            ).accounts@);
        }
        self.accounts.push((clearing, account, alias));
    }

    /// The configured name of a category key, the key itself when unset.
    pub open spec fn spec_general_name(self, key: Seq<char>) -> Seq<char> {
        if self.general_map().contains_key(key) {
            self.general_map()[key]
        } else {
            key
        }
    }

    pub open spec fn spec_assets_name(self) -> Seq<char> {
        self.spec_general_name("Assets"@)
    }

    pub open spec fn spec_expenses_name(self) -> Seq<char> {
        self.spec_general_name("Expenses"@)
    }

    pub open spec fn spec_income_name(self) -> Seq<char> {
        self.spec_general_name("Income"@)
    }

    fn general_name(&self, key: &str) -> (r: String)
        ensures
            r@ == self.spec_general_name(key@),
    {
        match lookup_str(&self.general, key) {
            Some(s) => s,
            None => key.to_owned(),
        }
    }

    /// The display name of the asset category root (default `Assets`).
    pub fn assets_name(&self) -> (r: String)
        ensures
            r@ == self.spec_assets_name(),
    {
        self.general_name("Assets")
    }

    /// The display name of the expense category root (default `Expenses`).
    pub fn expenses_name(&self) -> (r: String)
        ensures
            r@ == self.spec_expenses_name(),
    {
        self.general_name("Expenses")
    }

    /// The display name of the income category root (default `Income`).
    pub fn income_name(&self) -> (r: String)
        ensures
            r@ == self.spec_income_name(),
    {
        self.general_name("Income")
    }

    /// The account suffix for a description: its override when configured,
    /// else `Import:` followed by the description itself.
    pub open spec fn spec_account_from_desc(self, desc: Seq<char>) -> Seq<char> {
        if self.descriptions_map().contains_key(desc) {
            self.descriptions_map()[desc]
        } else {
            "Import:"@ + desc
        }
    }

    pub fn account_from_desc(&self, desc: &str) -> (r: String)
        ensures
            r@ == self.spec_account_from_desc(desc@),
    {
        match lookup_str(&self.descriptions, desc) {
            Some(s) => s,
            None => {
                let mut r = String::from_str("Import:");
                r.append(desc);
                r
            },
        }
    }

    /// The alias of a bank account: its configured alias when one exists,
    /// else the clearing and account numbers joined by a colon.
    pub open spec fn spec_account_name(self, cl_nr: u32, acc_nr: u32) -> Seq<char> {
        if self.accounts_map().contains_key((cl_nr, acc_nr)) {
            self.accounts_map()[(cl_nr, acc_nr)]
        } else {
            dec_digits(cl_nr as nat) + ":"@ + dec_digits(acc_nr as nat)
        }
    }

    pub fn account_name(&self, cl_nr: u32, acc_nr: u32) -> (r: String)
        ensures
            r@ == self.spec_account_name(cl_nr, acc_nr),
    {
        match lookup_acct(&self.accounts, cl_nr, acc_nr) {
            Some(s) => s,
            None => {
                let mut r = String::new();
                append_digits(&mut r, cl_nr as u128);
                r.append(":");
                append_digits(&mut r, acc_nr as u128);
                proof {
                    assert(r@ =~= dec_digits(cl_nr as nat) + ":"@ + dec_digits(acc_nr as nat));
                }
                r
            },
        }
    }

    /// The full asset-leg account path of a row.
    pub open spec fn spec_asset_path(self, row: SwedbankRow) -> Seq<char> {
        self.spec_assets_name() + ":Bank:"@ + self.spec_account_name(
            row.clearingnummer,
            row.kontonummer,
        )
    }

    /// The full counter-leg account path of a row: the expense root for a
    /// strictly negative amount, else the income root, then the
    /// description's account suffix.
    pub open spec fn spec_counter_account(self, row: SwedbankRow) -> Seq<char> {
        if row.belopp.value() < 0 {
            self.spec_expenses_name() + ":"@ + self.spec_account_from_desc(row.beskrivning@)
        } else {
            self.spec_income_name() + ":"@ + self.spec_account_from_desc(row.beskrivning@)
        }
    }

    /// Maps one decoded bank row to a balanced two-leg ledger entry.
    #[verifier::rlimit(60)]
    pub fn row2entry(&self, row: &SwedbankRow) -> (e: Entry)
        requires
            row.belopp.wf(),
        ensures
            e.balanced(),
            e.render_ready(),
            e.primary_date == row.transaktionsdag,
            e.secondary_date == (if row.transaktionsdag == row.bokforingsdag {
                Option::<Date>::None
            } else {
                Option::Some(row.bokforingsdag)
            }),
            e.description@ == row.beskrivning@,
            e.comments@.len() == 1 && e.comments@[0]@ == "referens: "@ + row.referens@,
            e.transactions@.len() == 2,
            e.transactions@[0].account_path@ == self.spec_asset_path(*row),
            e.transactions@[0].amount == row.belopp,
            e.transactions@[0].currency@ == row.valuta@,
            e.transactions@[0].balance_assertion matches Some(b) && b.amount == row.bokfort_saldo
                && b.currency@ == row.valuta@,
            e.transactions@[0].comment is None,
            e.transactions@[1].account_path@ == self.spec_counter_account(*row),
            e.transactions@[1].amount == row.belopp.spec_neg(),
            e.transactions@[1].currency@ == row.valuta@,
            e.transactions@[1].balance_assertion is None,
            e.transactions@[1].comment is None,
            entry_chars(e) == spec_entry_chars(*self, *row),
    {
        let mut transactions: Vec<Transaction> = Vec::new();
        let mut asset_path = self.assets_name();
        asset_path.append(":Bank:");
        let alias = self.account_name(row.clearingnummer, row.kontonummer);
        asset_path.append(alias.as_str());
        transactions.push(
            Transaction {
                account_path: asset_path,
                amount: row.belopp,
                currency: row.valuta.clone(),
                balance_assertion: Some(
                    BalanceAssertion { amount: row.bokfort_saldo, currency: row.valuta.clone() },
                ),
                comment: None,
            },
        );
        let account_from_desc = self.account_from_desc(row.beskrivning.as_str());
        let mut counter_path = if row.belopp.is_strictly_negative() {
            self.expenses_name()
        } else {
            self.income_name()
        };
        counter_path.append(":");
        counter_path.append(account_from_desc.as_str());
        transactions.push(
            Transaction {
                account_path: counter_path,
                amount: row.belopp.neg(),
                currency: row.valuta.clone(),
                balance_assertion: None,
                comment: None,
            },
        );
        let mut comment = String::from_str("referens: ");
        comment.append(row.referens.as_str());
        let mut comments: Vec<String> = Vec::new();
        comments.push(comment);
        let secondary_date = if row.transaktionsdag == row.bokforingsdag {
            None
        } else {
            Some(row.bokforingsdag)
        };
        let e = Entry {
            primary_date: row.transaktionsdag,
            secondary_date,
            description: row.beskrivning.clone(),
            comments,
            transactions,
        };
        proof {
            assert(comments_chars(Seq::<String>::empty()) == Seq::<char>::empty());
            assert(e.comments@.drop_last() =~= Seq::<String>::empty());
            assert(e.comments@.last() == e.comments@[0]);
            assert(comments_chars(e.comments@) == comments_chars(Seq::<String>::empty())
                + comment_chars(e.comments@[0]@));
            assert(comments_chars(e.comments@) =~= comment_chars(e.comments@[0]@));
            assert(transactions_chars(Seq::<Transaction>::empty()) == Seq::<char>::empty());
            let t01 = seq![e.transactions@[0]];
            assert(e.transactions@.drop_last() =~= t01);
            assert(e.transactions@.last() == e.transactions@[1]);
            assert(t01.drop_last() =~= Seq::<Transaction>::empty());
            assert(t01.last() == e.transactions@[0]);
            assert(transactions_chars(t01) == transactions_chars(Seq::<Transaction>::empty())
                + transaction_chars(e.transactions@[0]));
            assert(transactions_chars(e.transactions@) == transactions_chars(t01)
                + transaction_chars(e.transactions@[1]));
            assert(transactions_chars(e.transactions@) =~= transaction_chars(e.transactions@[0])
                + transaction_chars(e.transactions@[1]));
            assert(entry_chars(e) =~= spec_entry_chars(*self, *row));
        }
        e
    }

    /// Converts decoded rows to the ledger text of their entries, one entry
    /// per row, in row order, each followed by a separating newline.
    pub fn rows_to_ledger(&self, rows: &Vec<SwedbankRow>) -> (r: String)
        requires
            forall|i: int| 0 <= i < rows@.len() ==> (#[trigger] rows@[i]).belopp.wf(),
        ensures
            r@ == ledger_chars(*self, rows@),
    {
        let mut out = String::new();
        let mut idx: usize = 0;
        while idx < rows.len()
            invariant
                idx <= rows@.len(),
                forall|i: int| 0 <= i < rows@.len() ==> (#[trigger] rows@[i]).belopp.wf(),
                out@ == ledger_chars(*self, rows@.take(idx as int)),
            decreases rows@.len() - idx,
        {
            let e = self.row2entry(&rows[idx]);
            let t = e.render();
            out.append(t.as_str());
            out.append("\n");
            proof {
                let pre = rows@.take(idx as int);
                let post = rows@.take(idx as int + 1);
                assert(post.drop_last() =~= pre);
                assert(post.last() == rows@[idx as int]);
                assert(out@ =~= ledger_chars(*self, post));
            }
            idx = idx + 1;
        }
        proof {
            assert(rows@.take(rows@.len() as int) =~= rows@);
        }
        out
    }
}

/// The comment and transaction lines of a row's entry.
pub open spec fn spec_entry_body_chars(cfg: Record2Entry, row: SwedbankRow) -> Seq<char> {
    comment_chars("referens: "@ + row.referens@) + "\t"@ + cfg.spec_asset_path(row) + "\t"@
        + amount_chars(row.belopp) + " "@ + row.valuta@ + "\n"@ + "\t"@ + cfg.spec_counter_account(
        row,
    ) + "\t"@ + amount_chars(row.belopp.spec_neg()) + " "@ + row.valuta@ + "\n"@
}

/// The whole text of the entry a row maps to.
pub open spec fn spec_entry_chars(cfg: Record2Entry, row: SwedbankRow) -> Seq<char> {
    date_chars(row.transaktionsdag) + (if row.transaktionsdag == row.bokforingsdag {
        Seq::<char>::empty()
    } else {
        "="@ + date_chars(row.bokforingsdag)
    }) + " "@ + row.beskrivning@ + "\n"@ + spec_entry_body_chars(cfg, row)
}

/// The text of a whole conversion run: each row's entry in row order, each
/// followed by a separating newline.
pub open spec fn ledger_chars(cfg: Record2Entry, rows: Seq<SwedbankRow>) -> Seq<char>
    decreases rows.len(),
{
    if rows.len() == 0 {
        Seq::empty()
    } else {
        ledger_chars(cfg, rows.drop_last()) + spec_entry_chars(cfg, rows.last()) + "\n"@
    }
}

/// Law: an amount of exactly zero routes the counter leg to the income
/// category root, not the expense root.
pub proof fn lemma_zero_amount_routes_to_income(cfg: Record2Entry, row: SwedbankRow)
    requires
        row.belopp.value() == 0,
    ensures
        cfg.spec_counter_account(row) == cfg.spec_income_name() + ":"@
            + cfg.spec_account_from_desc(row.beskrivning@),
{
}

/// Law: every lookup has a total fallback. An account pair absent from the
/// alias mapping yields the numbers joined by a colon; a description absent
/// from the overrides yields `Import:` and the description; an unset
/// category key keeps its literal default name.
pub proof fn lemma_fallback_completeness(
    cfg: Record2Entry,
    cl_nr: u32,
    acc_nr: u32,
    desc: Seq<char>,
    key: Seq<char>,
)
    ensures
        !cfg.accounts_map().contains_key((cl_nr, acc_nr)) ==> cfg.spec_account_name(cl_nr, acc_nr)
            == dec_digits(cl_nr as nat) + ":"@ + dec_digits(acc_nr as nat),
        !cfg.descriptions_map().contains_key(desc) ==> cfg.spec_account_from_desc(desc)
            == "Import:"@ + desc,
        !cfg.general_map().contains_key(key) ==> cfg.spec_general_name(key) == key,
{
}

/// Law: the secondary date appears in an entry's text exactly when the
/// transaction date differs from the posting date; when they are equal the
/// header holds a single date.
pub proof fn lemma_secondary_date_gating(cfg: Record2Entry, row: SwedbankRow)
    ensures
        row.transaktionsdag == row.bokforingsdag ==> spec_entry_chars(cfg, row) == date_chars(
            row.transaktionsdag,
        ) + " "@ + row.beskrivning@ + "\n"@ + spec_entry_body_chars(cfg, row),
        row.transaktionsdag != row.bokforingsdag ==> spec_entry_chars(cfg, row) == date_chars(
            row.transaktionsdag,
        ) + "="@ + date_chars(row.bokforingsdag) + " "@ + row.beskrivning@ + "\n"@
            + spec_entry_body_chars(cfg, row),
{
    if row.transaktionsdag == row.bokforingsdag {
        assert(spec_entry_chars(cfg, row) =~= date_chars(row.transaktionsdag) + " "@
            + row.beskrivning@ + "\n"@ + spec_entry_body_chars(cfg, row));
    } else {
        assert(spec_entry_chars(cfg, row) =~= date_chars(row.transaktionsdag) + "="@ + date_chars(
            row.bokforingsdag,
        ) + " "@ + row.beskrivning@ + "\n"@ + spec_entry_body_chars(cfg, row));
    }
}

} // verus!
