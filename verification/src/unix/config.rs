//! Classification of command-line arguments into settings and path lists,
//! ordering of directory entries, and rendering of the listing output.
//!
//! Nothing here touches the filesystem: the caller probes each path argument
//! and reads each directory, and hands the outcomes in as plain values.

pub mod config_utils;

use vstd::prelude::*;

use crate::ls::long_list_utils::{
    entry_line_of, is_hidden, make_long_list_string, name_is_hidden, FileKind,
};
use crate::unix::config::config_utils::{
    apply_option_chars, default_settings, unrecognized_of, Settings, Sort, SortType,
};

verus! {

// ---------------------------------------------------------------------------
// The order on entry names.
// ---------------------------------------------------------------------------
/// Lexicographic order on names by codepoint: the empty name comes first;
/// otherwise the first differing codepoint decides.
pub open spec fn lex_leq(a: Seq<char>, b: Seq<char>) -> bool
    decreases a.len(),
{
    if a.len() == 0 {
        true
    } else if b.len() == 0 {
        false
    } else if (a[0] as u32) < (b[0] as u32) {
        true
    } else if (b[0] as u32) < (a[0] as u32) {
        false
    } else {
        lex_leq(a.drop_first(), b.drop_first())
    }
}

/// Whether `a` may stand at or before `b` under the policy `sort`: the
/// lexicographic order by default, the inverted comparison when `reversed`
/// is set.
pub open spec fn in_order(sort: Sort, a: Seq<char>, b: Seq<char>) -> bool {
    if sort.reversed {
        lex_leq(b, a)
    } else {
        lex_leq(a, b)
    }
}

/// The order is total: of two names, one may always stand before the other.
pub proof fn lemma_lex_leq_total(a: Seq<char>, b: Seq<char>)
    ensures
        lex_leq(a, b) || lex_leq(b, a),
    decreases a.len(),
{
    if a.len() == 0 || b.len() == 0 {
    } else if (a[0] as u32) == (b[0] as u32) {
        lemma_lex_leq_total(a.drop_first(), b.drop_first());
    }
}

/// The order is transitive.
pub proof fn lemma_lex_leq_transitive(a: Seq<char>, b: Seq<char>, c: Seq<char>)
    requires
        lex_leq(a, b),
        lex_leq(b, c),
    ensures
        lex_leq(a, c),
    decreases a.len(),
{
    if a.len() == 0 {
    } else {
        if (a[0] as u32) == (b[0] as u32) && (b[0] as u32) == (c[0] as u32) {
            lemma_lex_leq_transitive(a.drop_first(), b.drop_first(), c.drop_first());
        }
    }
}

/// Totality, stated for the policy comparison.
pub proof fn lemma_in_order_total(sort: Sort, a: Seq<char>, b: Seq<char>)
    ensures
        in_order(sort, a, b) || in_order(sort, b, a),
{
    lemma_lex_leq_total(a, b);
}

/// Transitivity, stated for the policy comparison.
pub proof fn lemma_in_order_transitive(sort: Sort, a: Seq<char>, b: Seq<char>, c: Seq<char>)
    requires
        in_order(sort, a, b),
        in_order(sort, b, c),
    ensures
        in_order(sort, a, c),
{
    if sort.reversed {
        lemma_lex_leq_transitive(c, b, a);
    } else {
        lemma_lex_leq_transitive(a, b, c);
    }
}

/// Names that agree on their first `i` codepoints compare as their remainders
/// do.
proof fn lemma_lex_leq_skip(a: Seq<char>, b: Seq<char>, i: int)
    requires
        0 <= i <= a.len(),
        i <= b.len(),
        forall|k: int| 0 <= k < i ==> (a[k] as u32) == (b[k] as u32),
    ensures
        lex_leq(a, b) == lex_leq(a.skip(i), b.skip(i)),
    decreases i,
{
    if i == 0 {
        assert(a.skip(0) =~= a);
        assert(b.skip(0) =~= b);
    } else {
        lemma_lex_leq_skip(a.drop_first(), b.drop_first(), i - 1);
        assert(a.drop_first().skip(i - 1) =~= a.skip(i));
        assert(b.drop_first().skip(i - 1) =~= b.skip(i));
    }
}

/// Whether `a` comes at or before `b` in lexicographic codepoint order.
pub fn lex_leq_names(a: &str, b: &str) -> (r: bool)
    ensures
        r == lex_leq(a@, b@),
{
    let a_len = a.unicode_len();
    let b_len = b.unicode_len();
    let mut i: usize = 0;
    while i < a_len && i < b_len
        invariant
            a_len == a@.len(),
            b_len == b@.len(),
            i <= a_len,
            i <= b_len,
            forall|k: int| 0 <= k < i ==> (a@[k] as u32) == (b@[k] as u32),
        decreases a_len - i,
    {
        let ca = a.get_char(i) as u32;
        let cb = b.get_char(i) as u32;
        if ca < cb {
            proof {
                lemma_lex_leq_skip(a@, b@, i as int);
            }
            return true;
        }
        if cb < ca {
            proof {
                lemma_lex_leq_skip(a@, b@, i as int);
            }
            return false;
        }
        i += 1;
    }
    proof {
        lemma_lex_leq_skip(a@, b@, i as int);
    }
    i >= a_len
}

/// Whether `a` may stand at or before `b` under the policy `sort`.
pub fn name_in_order(sort: &Sort, a: &String, b: &String) -> (r: bool)
    ensures
        r == in_order(*sort, a@, b@),
{
    if sort.reversed {
        lex_leq_names(b.as_str(), a.as_str())
    } else {
        lex_leq_names(a.as_str(), b.as_str())
    }
}

// ---------------------------------------------------------------------------
// Directory entries and their ordering.
// ---------------------------------------------------------------------------
/// One directory entry: its name and the kind of object it refers to, as the
/// caller read them from the directory.
#[verifier::ext_equal]
pub struct DirEntry {
    pub name: String,
    pub kind: FileKind,
}

impl View for DirEntry {
    type V = DirEntry;

    open spec fn view(&self) -> DirEntry {
        *self
    }
}

impl DeepView for DirEntry {
    type V = DirEntry;

    open spec fn deep_view(&self) -> DirEntry {
        *self
    }
}

/// `e` inserted into `s` from the right: after every element that may stand
/// before it, so an entry never moves past one with the same name.
pub open spec fn insert_sorted(sort: Sort, e: DirEntry, s: Seq<DirEntry>) -> Seq<DirEntry>
    decreases s.len(),
{
    if s.len() == 0 {
        seq![e]
    } else if in_order(sort, s.last().name@, e.name@) {
        s.push(e)
    } else {
        insert_sorted(sort, e, s.drop_last()).push(s.last())
    }
}

/// The entries ordered per the policy: insertion sort by name for the
/// alphabetic kind, and the entries unchanged for the creation-time kind,
/// which performs no reordering.
pub open spec fn sort_entries(sort: Sort, s: Seq<DirEntry>) -> Seq<DirEntry>
    decreases s.len(),
{
    match sort.sort_type {
        SortType::Alphabetic => {
            if s.len() == 0 {
                s
            } else {
                insert_sorted(sort, s.last(), sort_entries(sort, s.drop_last()))
            }
        },
        SortType::CreationTime => s,
    }
}

proof fn lemma_insert_sorted_len(sort: Sort, e: DirEntry, s: Seq<DirEntry>)
    ensures
        insert_sorted(sort, e, s).len() == s.len() + 1,
    decreases s.len(),
{
    if s.len() == 0 {
    } else if in_order(sort, s.last().name@, e.name@) {
    } else {
        lemma_insert_sorted_len(sort, e, s.drop_last());
    }
}

/// Where the insertion lands: when everything from `j` on may not stand
/// before `e`, and the element before `j` (if any) may, then `e` lands at
/// position `j`.
proof fn lemma_insert_sorted_at(sort: Sort, e: DirEntry, s: Seq<DirEntry>, j: int)
    requires
        0 <= j <= s.len(),
        j > 0 ==> in_order(sort, s[j - 1].name@, e.name@),
        forall|k: int| j <= k < s.len() ==> !in_order(sort, s[k].name@, e.name@),
    ensures
        insert_sorted(sort, e, s) == s.subrange(0, j) + seq![e] + s.subrange(j, s.len() as int),
    decreases s.len(),
{
    if j == s.len() {
        if s.len() == 0 {
            assert(s.subrange(0, 0) + seq![e] + s.subrange(0, 0) =~= seq![e]);
        } else {
            assert(in_order(sort, s.last().name@, e.name@));
            assert(s.subrange(0, j) =~= s);
            assert(s.subrange(j, s.len() as int) =~= Seq::<DirEntry>::empty());
            assert(s.subrange(0, j) + seq![e] + s.subrange(j, s.len() as int) =~= s.push(e));
        }
    } else {
        assert(!in_order(sort, s.last().name@, e.name@));
        lemma_insert_sorted_at(sort, e, s.drop_last(), j);
        assert(s.drop_last().subrange(0, j) =~= s.subrange(0, j));
        assert(s.drop_last().subrange(j, s.len() - 1) =~= s.subrange(j, s.len() - 1));
        assert((s.subrange(0, j) + seq![e] + s.subrange(j, s.len() - 1)).push(s.last()) =~= s
            .subrange(0, j) + seq![e] + s.subrange(j, s.len() as int));
    }
}

/// Whether the entries stand pairwise in order under the policy comparison.
pub open spec fn entries_ordered(sort: Sort, s: Seq<DirEntry>) -> bool {
    forall|p: int, q: int|
        0 <= p < q < s.len() ==> #[trigger] in_order(sort, s[p].name@, s[q].name@)
}

proof fn lemma_insert_sorted_elems(sort: Sort, e: DirEntry, s: Seq<DirEntry>)
    ensures
        forall|p: int|
            0 <= p < insert_sorted(sort, e, s).len() ==> (#[trigger] insert_sorted(
                sort,
                e,
                s,
            )[p] == e || s.contains(insert_sorted(sort, e, s)[p])),
    decreases s.len(),
{
    if s.len() == 0 {
    } else if in_order(sort, s.last().name@, e.name@) {
    } else {
        lemma_insert_sorted_elems(sort, e, s.drop_last());
        assert forall|p: int|
            0 <= p < insert_sorted(sort, e, s).len() implies (insert_sorted(sort, e, s)[p] == e
            || s.contains(insert_sorted(sort, e, s)[p])) by {
            let t = insert_sorted(sort, e, s.drop_last()).push(s.last());
            assert(insert_sorted(sort, e, s) == t);
            if p < t.len() - 1 {
                let x = insert_sorted(sort, e, s.drop_last())[p];
                if x != e {
                    assert(s.drop_last().contains(x));
                    let k = choose|k: int|
                        0 <= k < s.drop_last().len() && s.drop_last()[k] == x;
                    assert(s[k] == x);
                }
            } else {
                assert(t[p] == s.last());
                assert(s[s.len() - 1] == s.last());
            }
        }
    }
}

proof fn lemma_insert_sorted_ordered(sort: Sort, e: DirEntry, s: Seq<DirEntry>)
    requires
        entries_ordered(sort, s),
    ensures
        entries_ordered(sort, insert_sorted(sort, e, s)),
    decreases s.len(),
{
    if s.len() == 0 {
    } else if in_order(sort, s.last().name@, e.name@) {
        let t = s.push(e);
        assert forall|p: int, q: int| 0 <= p < q < t.len() implies in_order(
            sort,
            t[p].name@,
            t[q].name@,
        ) by {
            if q == t.len() - 1 {
                if p < s.len() - 1 {
                    assert(in_order(sort, s[p].name@, s[s.len() - 1].name@));
                    lemma_in_order_transitive(sort, s[p].name@, s.last().name@, e.name@);
                }
            }
        }
    } else {
        let inner = insert_sorted(sort, e, s.drop_last());
        assert(entries_ordered(sort, s.drop_last()));
        lemma_insert_sorted_ordered(sort, e, s.drop_last());
        lemma_insert_sorted_elems(sort, e, s.drop_last());
        let t = inner.push(s.last());
        assert forall|p: int, q: int| 0 <= p < q < t.len() implies in_order(
            sort,
            t[p].name@,
            t[q].name@,
        ) by {
            if q == t.len() - 1 {
                let x = inner[p];
                if x == e {
                    lemma_in_order_total(sort, s.last().name@, e.name@);
                } else {
                    assert(s.drop_last().contains(x));
                    let k = choose|k: int|
                        0 <= k < s.drop_last().len() && s.drop_last()[k] == x;
                    assert(in_order(sort, s[k].name@, s[s.len() - 1].name@));
                }
            } else {
                assert(in_order(sort, inner[p].name@, inner[q].name@));
            }
        }
    }
}

/// Law: with the alphabetic kind active, the ordered entries stand pairwise
/// in order under the active comparison, which is inverted end-to-end when
/// `reversed` is set.
pub proof fn lemma_sort_entries_sorted(sort: Sort, s: Seq<DirEntry>)
    requires
        sort.sort_type == SortType::Alphabetic,
    ensures
        entries_ordered(sort, sort_entries(sort, s)),
    decreases s.len(),
{
    if s.len() == 0 {
    } else {
        lemma_sort_entries_sorted(sort, s.drop_last());
        lemma_insert_sorted_ordered(sort, s.last(), sort_entries(sort, s.drop_last()));
    }
}

proof fn lemma_insert_sorted_multiset(sort: Sort, e: DirEntry, s: Seq<DirEntry>)
    ensures
        insert_sorted(sort, e, s).to_multiset() == s.to_multiset().insert(e),
    decreases s.len(),
{
    broadcast use vstd::seq_lib::group_to_multiset_ensures;
    broadcast use vstd::multiset::group_multiset_axioms;

    if s.len() == 0 {
        assert(seq![e] =~= Seq::<DirEntry>::empty().push(e));
    } else if in_order(sort, s.last().name@, e.name@) {
    } else {
        lemma_insert_sorted_multiset(sort, e, s.drop_last());
        assert(s =~= s.drop_last().push(s.last()));
        assert(s.to_multiset() == s.drop_last().to_multiset().insert(s.last()));
        assert(insert_sorted(sort, e, s).to_multiset() == s.drop_last().to_multiset().insert(
            e,
        ).insert(s.last()));
        assert(s.drop_last().to_multiset().insert(e).insert(s.last())
            =~= s.drop_last().to_multiset().insert(s.last()).insert(e));
    }
}

/// Law: ordering the entries neither loses, adds nor repeats one — the
/// result holds exactly the entries it was given.
pub proof fn lemma_sort_entries_permutes(sort: Sort, s: Seq<DirEntry>)
    ensures
        sort_entries(sort, s).to_multiset() == s.to_multiset(),
    decreases s.len(),
{
    broadcast use vstd::seq_lib::group_to_multiset_ensures;

    match sort.sort_type {
        SortType::Alphabetic => {
            if s.len() == 0 {
            } else {
                lemma_sort_entries_permutes(sort, s.drop_last());
                lemma_insert_sorted_multiset(sort, s.last(), sort_entries(sort, s.drop_last()));
                assert(s =~= s.drop_last().push(s.last()));
                assert(s.to_multiset() == s.drop_last().to_multiset().insert(s.last()));
            }
        },
        SortType::CreationTime => {},
    }
}

/// Orders the entries per `sort`, in place: by name for the alphabetic kind,
/// untouched for the creation-time kind.
pub fn sort_entry_vec(sort: &Sort, entries: &mut Vec<DirEntry>)
    ensures
        final(entries)@ == sort_entries(*sort, old(entries)@),
{
    let ghost s0 = old(entries)@;
    match sort.sort_type {
        SortType::CreationTime => {
        },
        SortType::Alphabetic => {
            if entries.len() <= 1 {
                proof {
                    if s0.len() == 1 {
                        assert(s0.drop_last() =~= Seq::<DirEntry>::empty());
                        assert(sort_entries(*sort, s0.drop_last()) == s0.drop_last());
                        assert(sort_entries(*sort, s0) =~= s0);
                    }
                }
            } else {
                let mut i: usize = 1;
                proof {
                    assert(s0.take(1).drop_last() =~= Seq::<DirEntry>::empty());
                    assert(s0.take(1).last() == s0[0]);
                    assert(sort_entries(*sort, Seq::<DirEntry>::empty())
                        == Seq::<DirEntry>::empty());
                    assert(insert_sorted(*sort, s0[0], Seq::<DirEntry>::empty()) == seq![s0[0]]);
                    assert(sort_entries(*sort, s0.take(1)) =~= seq![s0[0]]);
                    assert(entries@ =~= sort_entries(*sort, s0.take(1)) + s0.skip(1));
                }
                while i < entries.len()
                    invariant
                        sort.sort_type == SortType::Alphabetic,
                        1 <= i <= entries@.len(),
                        entries@.len() == s0.len(),
                        s0 == old(entries)@,
                        entries@ == sort_entries(*sort, s0.take(i as int)) + s0.skip(i as int),
                        sort_entries(*sort, s0.take(i as int)).len() == i as int,
                    decreases entries@.len() - i,
                {
                    let ghost before = entries@;
                    let ghost prefix = sort_entries(*sort, s0.take(i as int));
                    let mut j: usize = i;
                    while j > 0 && !name_in_order(sort, &entries[j - 1].name, &entries[i].name)
                        invariant
                            j <= i,
                            i < entries@.len(),
                            entries@ == before,
                            forall|k: int|
                                j <= k < i ==> !in_order(
                                    *sort,
                                    before[k].name@,
                                    before[i as int].name@,
                                ),
                        decreases j,
                    {
                        j -= 1;
                    }
                    let ghost x_val = before[i as int];
                    let x = entries.remove(i);
                    entries.insert(j, x);
                    proof {
                        assert(x == x_val);
                        assert(forall|k: int| 0 <= k < i ==> prefix[k] == before[k]);
                        assert(forall|k: int|
                            j <= k < prefix.len() ==> !in_order(
                                *sort,
                                prefix[k].name@,
                                x_val.name@,
                            ));
                        lemma_insert_sorted_at(*sort, x_val, prefix, j as int);
                        assert(before.remove(i as int) =~= prefix + s0.skip(i as int + 1));
                        assert(entries@ =~= (prefix.subrange(0, j as int) + seq![x_val]
                            + prefix.subrange(j as int, prefix.len() as int)) + s0.skip(
                            i as int + 1,
                        ));
                        assert(entries@ =~= insert_sorted(*sort, x_val, prefix) + s0.skip(
                            i as int + 1,
                        ));
                        assert(s0.take(i as int + 1).drop_last() =~= s0.take(i as int));
                        assert(s0.take(i as int + 1).last() == x_val);
                        assert(sort_entries(*sort, s0.take(i as int + 1)) == insert_sorted(
                            *sort,
                            x_val,
                            prefix,
                        ));
                        lemma_insert_sorted_len(*sort, x_val, prefix);
                    }
                    i += 1;
                }
                proof {
                    assert(s0.take(s0.len() as int) =~= s0);
                    assert(s0.skip(s0.len() as int) =~= Seq::<DirEntry>::empty());
                    assert(entries@ =~= sort_entries(*sort, s0));
                }
            }
        },
    }
}

// ---------------------------------------------------------------------------
// Classification of the arguments.
// ---------------------------------------------------------------------------
/// The probe outcome the caller supplies for one path argument: an existing
/// regular file, an existing directory, or nothing at that path.
#[derive(Clone, Copy, PartialEq, Eq, Structural, Debug)]
pub enum PathKind {
    RegularFile,
    Directory,
    Missing,
}

/// A diagnostic from the argument scan, for the caller to report: an option
/// character that names no option, or a path argument that named nothing.
pub enum Diag {
    UnrecognizedOption(char),
    PathNotFound(String),
}

/// The view of a diagnostic.
pub enum DiagV {
    UnrecognizedOption(char),
    PathNotFound(Seq<char>),
}

impl View for Diag {
    type V = DiagV;

    open spec fn view(&self) -> DiagV {
        match self {
            Diag::UnrecognizedOption(c) => DiagV::UnrecognizedOption(*c),
            Diag::PathNotFound(t) => DiagV::PathNotFound(t@),
        }
    }
}

impl DeepView for Diag {
    type V = DiagV;

    open spec fn deep_view(&self) -> DiagV {
        self.view()
    }
}

/// A token is an option token when its first character is the marker `-`;
/// anything else, the empty token included, is a path name.
pub open spec fn option_token(t: Seq<char>) -> bool {
    t.len() >= 1 && t[0] == '-'
}

/// Everything the argument scan yields: the classified path lists in
/// argument order, the settings, and the diagnostics to report, in order.
#[verifier::ext_equal]
pub struct Classified {
    pub regular_files: Seq<Seq<char>>,
    pub directories: Seq<Seq<char>>,
    pub settings: Settings,
    pub diags: Seq<DiagV>,
}

/// The scan before any token: nothing classified, default settings.
pub open spec fn initial_scan() -> Classified {
    Classified {
        regular_files: Seq::empty(),
        directories: Seq::empty(),
        settings: default_settings(),
        diags: Seq::empty(),
    }
}

/// One not-recognized diagnostic per character of `cs`, in order.
pub open spec fn unrec_diags(cs: Seq<char>) -> Seq<DiagV>
    decreases cs.len(),
{
    if cs.len() == 0 {
        Seq::empty()
    } else {
        unrec_diags(cs.drop_last()).push(DiagV::UnrecognizedOption(cs.last()))
    }
}

/// The diagnostics for the unrecognized characters of one option token.
pub open spec fn option_diags(cs: Seq<char>) -> Seq<DiagV> {
    unrec_diags(unrecognized_of(cs))
}

/// The effect of one token on the scan: an option token applies its
/// characters after the marker to the settings and reports the unrecognized
/// ones; a path token joins the one list its probe outcome names, or is
/// reported as not found.
pub open spec fn scan_step(acc: Classified, t: Seq<char>, kind: PathKind) -> Classified {
    if option_token(t) {
        Classified {
            settings: apply_option_chars(acc.settings, t.skip(1)),
            diags: acc.diags + option_diags(t.skip(1)),
            ..acc
        }
    } else {
        match kind {
            PathKind::RegularFile => Classified {
                regular_files: acc.regular_files.push(t),
                ..acc
            },
            PathKind::Directory => Classified { directories: acc.directories.push(t), ..acc },
            PathKind::Missing => Classified {
                diags: acc.diags.push(DiagV::PathNotFound(t)),
                ..acc
            },
        }
    }
}

/// The scan after every token of `ts`, each with its probe outcome in `ks`.
pub open spec fn scan_all(acc: Classified, ts: Seq<Seq<char>>, ks: Seq<PathKind>) -> Classified
    decreases ts.len(),
{
    if ts.len() == 0 {
        acc
    } else {
        scan_step(scan_all(acc, ts.drop_last(), ks.drop_last()), ts.last(), ks.last())
    }
}

/// The scan of a whole argument list: every token, then, when no argument
/// named an existing file or directory, the current working directory `.`
/// as the one default directory target.
pub open spec fn from_args_model(ts: Seq<Seq<char>>, ks: Seq<PathKind>) -> Classified {
    let c = scan_all(initial_scan(), ts, ks);
    if c.regular_files.len() == 0 && c.directories.len() == 0 {
        Classified { directories: seq!["."@], ..c }
    } else {
        c
    }
}

/// The diagnostic for one unrecognized option character.
fn unrec_diag(c: char) -> (d: Diag)
    ensures
        d == Diag::UnrecognizedOption(c),
{
    Diag::UnrecognizedOption(c)
}

/// One not-recognized diagnostic per character of `unrec`, in order.
fn unrec_diag_vec(unrec: &Vec<char>) -> (r: Vec<Diag>)
    ensures
        r.deep_view() == unrec_diags(unrec@),
{
    let mut r: Vec<Diag> = Vec::new();
    let mut u: usize = 0;
    proof {
        assert(unrec@.take(0) =~= Seq::<char>::empty());
        assert(r.deep_view() =~= unrec_diags(unrec@.take(0)));
    }
    while u < unrec.len()
        invariant
            u <= unrec@.len(),
            r@.len() == u as int,
            r.deep_view() == unrec_diags(unrec@.take(u as int)),
        decreases unrec@.len() - u,
    {
        let c = unrec[u];
        let d = unrec_diag(c);
        let ghost r_prev = r.deep_view();
        r.push(d);
        proof {
            assert(d@ == DiagV::UnrecognizedOption(c));
            assert(r.deep_view() =~= r_prev.push(d@));
            assert(unrec@.take(u as int + 1).drop_last() =~= unrec@.take(u as int));
            assert(unrec@.take(u as int + 1).last() == unrec@[u as int]);
            assert(r.deep_view() =~= unrec_diags(unrec@.take(u as int + 1)));
        }
        u += 1;
    }
    proof {
        assert(unrec@.take(unrec@.len() as int) =~= unrec@);
    }
    r
}

/// The configuration for one run: the classified path arguments, in
/// argument order, and the settings the option tokens configured.
pub struct Config {
    pub regular_files: Vec<String>,
    pub directories: Vec<String>,
    pub settings: Settings,
}

/// The scan state a configuration holds, together with the diagnostics
/// `ds` that were emitted while it was built.
pub open spec fn config_scan(c: Config, ds: Seq<DiagV>) -> Classified {
    Classified {
        regular_files: c.regular_files.deep_view(),
        directories: c.directories.deep_view(),
        settings: c.settings,
        diags: ds,
    }
}

impl Config {
    /// A configuration with nothing classified and default settings.
    pub fn default() -> (c: Config)
        ensures
            c.regular_files@.len() == 0,
            c.directories@.len() == 0,
            c.settings == default_settings(),
    {
        Config { regular_files: Vec::new(), directories: Vec::new(), settings: Settings::default() }
    }

    /// The settings the option tokens configured.
    pub fn settings(&self) -> (s: &Settings)
        ensures
            *s == self.settings,
    {
        &self.settings
    }

    /// Scans the argument tokens in order. Each character after the marker of
    /// an option token is applied to the settings; every other token is
    /// classified as the path name its probe outcome in `kinds` names. When
    /// no token named an existing file or directory, the directory list
    /// defaults to the current working directory `.` alone. The diagnostics
    /// are returned in scan order; none of them stops the scan.
    pub fn from_args(args: &Vec<String>, kinds: &Vec<PathKind>) -> (r: (Config, Vec<Diag>))
        requires
            kinds@.len() == args@.len(),
        ensures
            ({
                let m = from_args_model(args.deep_view(), kinds@);
                &&& r.0.regular_files.deep_view() == m.regular_files
                &&& r.0.directories.deep_view() == m.directories
                &&& r.0.settings == m.settings
                &&& r.1.deep_view() == m.diags
            }),
    {
        let ghost ts = args.deep_view();
        let ghost ks = kinds@;
        let mut config = Config::default();
        let mut diags: Vec<Diag> = Vec::new();
        let mut i: usize = 0;
        proof {
            assert(ts.take(0) =~= Seq::<Seq<char>>::empty());
            assert(ks.take(0) =~= Seq::<PathKind>::empty());
            assert(config_scan(config, diags.deep_view()) =~~= scan_all(
                initial_scan(),
                ts.take(0),
                ks.take(0),
            ));
        }
        while i < args.len()
            invariant
                i <= args@.len(),
                ks.len() == ts.len(),
                ts == args.deep_view(),
                ks == kinds@,
                config_scan(config, diags.deep_view()) == scan_all(
                    initial_scan(),
                    ts.take(i as int),
                    ks.take(i as int),
                ),
            decreases args@.len() - i,
        {
            let arg: &String = &args[i];
            let ghost t = arg@;
            let n = arg.as_str().unicode_len();
            let ghost config_before = config;
            let ghost diags_before = diags.deep_view();
            if n >= 1 && arg.as_str().get_char(0) == '-' {
                let mut tail: Vec<char> = Vec::new();
                let mut j: usize = 1;
                proof {
                    assert(t.subrange(1, 1) =~= Seq::<char>::empty());
                }
                while j < n
                    invariant
                        1 <= j <= n,
                        n == t.len(),
                        t == arg@,
                        tail@ == t.subrange(1, j as int),
                    decreases n - j,
                {
                    tail.push(arg.as_str().get_char(j));
                    proof {
                        assert(t.subrange(1, j as int + 1) =~= t.subrange(1, j as int).push(
                            t[j as int],
                        ));
                    }
                    j += 1;
                }
                proof {
                    assert(tail@ =~= t.skip(1));
                }
                let unrec = config.settings.try_apply_settings(&tail);
                let mut extra = unrec_diag_vec(&unrec);
                diags.append(&mut extra);
                proof {
                    assert(diags.deep_view() =~= diags_before + unrec_diags(unrec@));
                    assert(option_token(t));
                    assert(config_scan(config, diags.deep_view()) =~~= scan_step(
                        config_scan(config_before, diags_before),
                        t,
                        ks[i as int],
                    ));
                }
            } else {
                proof {
                    assert(!option_token(t));
                }
                match kinds[i] {
                    PathKind::RegularFile => {
                        config.regular_files.push(arg.clone());
                    },
                    PathKind::Directory => {
                        config.directories.push(arg.clone());
                    },
                    PathKind::Missing => {
                        let d = Diag::PathNotFound(arg.clone());
                        diags.push(d);
                    },
                }
                proof {
                    assert(config_scan(config, diags.deep_view()) =~~= scan_step(
                        config_scan(config_before, diags_before),
                        t,
                        ks[i as int],
                    ));
                }
            }
            proof {
                assert(ts.take(i as int + 1).drop_last() =~= ts.take(i as int));
                assert(ks.take(i as int + 1).drop_last() =~= ks.take(i as int));
                assert(ts.take(i as int + 1).last() == t);
                assert(ks.take(i as int + 1).last() == ks[i as int]);
            }
            i += 1;
        }
        proof {
            assert(ts.take(ts.len() as int) =~= ts);
            assert(ks.take(ks.len() as int) =~= ks);
        }
        if config.regular_files.len() == 0 && config.directories.len() == 0 {
            let ghost dirs_empty = config.directories.deep_view();
            config.directories.push(String::from_str("."));
            proof {
                assert(config.directories.deep_view() =~= dirs_empty.push("."@));
                assert(config.directories.deep_view() =~= seq!["."@]);
            }
        }
        (config, diags)
    }
}

// ---------------------------------------------------------------------------
// Laws of the classification.
// ---------------------------------------------------------------------------
/// The number of path tokens — tokens that are not option tokens — of `ts`.
pub open spec fn path_token_count(ts: Seq<Seq<char>>) -> int
    decreases ts.len(),
{
    if ts.len() == 0 {
        0
    } else {
        path_token_count(ts.drop_last()) + (if option_token(ts.last()) {
            0int
        } else {
            1int
        })
    }
}

/// The number of not-found diagnostics among `ds`.
pub open spec fn not_found_count(ds: Seq<DiagV>) -> int
    decreases ds.len(),
{
    if ds.len() == 0 {
        0
    } else {
        not_found_count(ds.drop_last()) + (match ds.last() {
            DiagV::PathNotFound(_) => 1int,
            DiagV::UnrecognizedOption(_) => 0int,
        })
    }
}

/// One appended diagnostic raises the not-found count by one exactly when
/// it is a not-found diagnostic.
proof fn lemma_not_found_count_push(s: Seq<DiagV>, d: DiagV)
    ensures
        not_found_count(s.push(d)) == not_found_count(s) + (match d {
            DiagV::PathNotFound(_) => 1int,
            DiagV::UnrecognizedOption(_) => 0int,
        }),
{
    assert(s.push(d).drop_last() =~= s);
}

proof fn lemma_not_found_count_append(a: Seq<DiagV>, b: Seq<DiagV>)
    ensures
        not_found_count(a + b) == not_found_count(a) + not_found_count(b),
    decreases b.len(),
{
    if b.len() == 0 {
        assert(a + b =~= a);
    } else {
        lemma_not_found_count_append(a, b.drop_last());
        assert((a + b).drop_last() =~= a + b.drop_last());
    }
}

proof fn lemma_unrec_step(pre: Seq<char>, c: char)
    requires
        not_found_count(unrec_diags(pre)) == 0,
    ensures
        not_found_count(unrec_diags(pre.push(c))) == 0,
{
    assert(pre.push(c).drop_last() =~= pre);
    assert(pre.push(c).last() == c);
    lemma_not_found_count_push(unrec_diags(pre), DiagV::UnrecognizedOption(c));
}

proof fn lemma_unrec_diags_no_not_found(cs: Seq<char>)
    ensures
        not_found_count(unrec_diags(cs)) == 0,
    decreases cs.len(),
{
    if cs.len() == 0 {
    } else {
        lemma_unrec_diags_no_not_found(cs.drop_last());
        lemma_unrec_step(cs.drop_last(), cs.last());
        assert(cs.drop_last().push(cs.last()) =~= cs);
    }
}

/// Law: classification is a partition. Every path token lands in exactly one
/// place — the regular-file list, the directory list, or a not-found
/// diagnostic — so the three together grow by exactly the number of path
/// tokens, and option tokens contribute to none of them.
pub proof fn lemma_classification_partition(acc: Classified, ts: Seq<Seq<char>>, ks: Seq<PathKind>)
    requires
        ks.len() == ts.len(),
    ensures
        ({
            let m = scan_all(acc, ts, ks);
            m.regular_files.len() + m.directories.len() + not_found_count(m.diags)
                == acc.regular_files.len() + acc.directories.len() + not_found_count(acc.diags)
                + path_token_count(ts)
        }),
    decreases ts.len(),
{
    if ts.len() == 0 {
    } else {
        lemma_classification_partition(acc, ts.drop_last(), ks.drop_last());
        let prev = scan_all(acc, ts.drop_last(), ks.drop_last());
        let t = ts.last();
        if option_token(t) {
            lemma_not_found_count_append(prev.diags, option_diags(t.skip(1)));
            lemma_unrec_diags_no_not_found(unrecognized_of(t.skip(1)));
        } else {
            match ks.last() {
                PathKind::Missing => {
                    lemma_not_found_count_push(prev.diags, DiagV::PathNotFound(t));
                },
                PathKind::RegularFile => {},
                PathKind::Directory => {},
            }
        }
    }
}

proof fn lemma_scan_no_valid_paths(acc: Classified, ts: Seq<Seq<char>>, ks: Seq<PathKind>)
    requires
        ks.len() == ts.len(),
        forall|i: int|
            0 <= i < ts.len() ==> option_token(#[trigger] ts[i]) || ks[i] == PathKind::Missing,
    ensures
        scan_all(acc, ts, ks).regular_files == acc.regular_files,
        scan_all(acc, ts, ks).directories == acc.directories,
    decreases ts.len(),
{
    if ts.len() == 0 {
    } else {
        assert forall|i: int|
            0 <= i < ts.drop_last().len() implies option_token(#[trigger] ts.drop_last()[i])
            || ks.drop_last()[i] == PathKind::Missing by {
            assert(ts.drop_last()[i] == ts[i]);
            assert(ks.drop_last()[i] == ks[i]);
        }
        lemma_scan_no_valid_paths(acc, ts.drop_last(), ks.drop_last());
        assert(option_token(ts[ts.len() - 1]) || ks[ts.len() - 1] == PathKind::Missing);
    }
}

/// Law: when no token names an existing file or directory — each one is an
/// option token or probes as missing — the classification defaults to
/// exactly one directory target, the current working directory `.`.
pub proof fn lemma_default_directory(ts: Seq<Seq<char>>, ks: Seq<PathKind>)
    requires
        ks.len() == ts.len(),
        forall|i: int|
            0 <= i < ts.len() ==> option_token(#[trigger] ts[i]) || ks[i] == PathKind::Missing,
    ensures
        from_args_model(ts, ks).directories == seq!["."@],
        from_args_model(ts, ks).regular_files.len() == 0,
{
    lemma_scan_no_valid_paths(initial_scan(), ts, ks);
}

/// Law: a path token whose probe found nothing contributes exactly one
/// not-found diagnostic and nothing else — the path lists and the settings
/// after the token are exactly those before it.
pub proof fn lemma_missing_token_one_diagnostic(acc: Classified, t: Seq<char>)
    requires
        !option_token(t),
    ensures
        scan_step(acc, t, PathKind::Missing).regular_files == acc.regular_files,
        scan_step(acc, t, PathKind::Missing).directories == acc.directories,
        scan_step(acc, t, PathKind::Missing).settings == acc.settings,
        scan_step(acc, t, PathKind::Missing).diags == acc.diags.push(DiagV::PathNotFound(t)),
{
}

/// Law: recorded diagnostics steer nothing. Scans from two states that agree
/// on everything but their diagnostics classify every later token alike, so
/// a reported path leaves the classification of all other tokens untouched.
pub proof fn lemma_diags_steer_nothing(
    acc1: Classified,
    acc2: Classified,
    ts: Seq<Seq<char>>,
    ks: Seq<PathKind>,
)
    requires
        ks.len() == ts.len(),
        acc1.regular_files == acc2.regular_files,
        acc1.directories == acc2.directories,
        acc1.settings == acc2.settings,
    ensures
        scan_all(acc1, ts, ks).regular_files == scan_all(acc2, ts, ks).regular_files,
        scan_all(acc1, ts, ks).directories == scan_all(acc2, ts, ks).directories,
        scan_all(acc1, ts, ks).settings == scan_all(acc2, ts, ks).settings,
    decreases ts.len(),
{
    if ts.len() == 0 {
    } else {
        lemma_diags_steer_nothing(acc1, acc2, ts.drop_last(), ks.drop_last());
    }
}

// ---------------------------------------------------------------------------
// Rendering of the output lines.
// ---------------------------------------------------------------------------
/// The file-name component of a path: what follows the last separator `/`,
/// or the whole path when it has none; empty when the path ends with `/`.
pub open spec fn file_name_of(p: Seq<char>) -> Seq<char>
    decreases p.len(),
{
    if p.len() == 0 {
        p
    } else if p.last() == '/' {
        Seq::empty()
    } else {
        file_name_of(p.drop_last()).push(p.last())
    }
}

/// When nothing from position `j` on is a separator, and `j` is the start or
/// preceded by one, the file-name component is the suffix from `j`.
proof fn lemma_file_name_suffix(p: Seq<char>, j: int)
    requires
        0 <= j <= p.len(),
        forall|k: int| j <= k < p.len() ==> p[k] != '/',
        j > 0 ==> p[j - 1] == '/',
    ensures
        file_name_of(p) == p.skip(j),
    decreases p.len(),
{
    if p.len() == 0 {
        assert(p.skip(0) =~= p);
    } else if j == p.len() {
        assert(p.last() == '/');
        assert(p.skip(j) =~= Seq::<char>::empty());
    } else {
        assert(p[p.len() - 1] != '/');
        lemma_file_name_suffix(p.drop_last(), j);
        assert(p.drop_last().skip(j) =~= p.subrange(j, p.len() - 1));
        assert(p.skip(j) =~= p.subrange(j, p.len() - 1).push(p.last()));
    }
}

/// The file-name component of `p`: what follows the last separator `/`.
pub fn file_name(p: &String) -> (r: String)
    ensures
        r@ == file_name_of(p@),
{
    let n = p.as_str().unicode_len();
    let mut start: usize = n;
    while start > 0 && p.as_str().get_char(start - 1) != '/'
        invariant
            start <= n,
            n == p@.len(),
            forall|k: int| start <= k < n ==> p@[k] != '/',
        decreases start,
    {
        start -= 1;
    }
    proof {
        lemma_file_name_suffix(p@, start as int);
        assert(p@.subrange(start as int, n as int) =~= p@.skip(start as int));
    }
    let r = p.as_str().substring_char(start, n);
    String::from_str(r)
}

/// The file-name lines for the regular-file arguments, in order.
pub open spec fn regular_file_lines(ps: Seq<Seq<char>>) -> Seq<Seq<char>>
    decreases ps.len(),
{
    if ps.len() == 0 {
        Seq::empty()
    } else {
        regular_file_lines(ps.drop_last()).push(file_name_of(ps.last()))
    }
}

/// The lines for already-ordered entries: hidden entries are skipped unless
/// the list-all flag is on; each kept entry shows per the long-list flag.
pub open spec fn format_entries(settings: Settings, s: Seq<DirEntry>) -> Seq<Seq<char>>
    decreases s.len(),
{
    if s.len() == 0 {
        Seq::empty()
    } else if !settings.list_all && is_hidden(s.last().name@) {
        format_entries(settings, s.drop_last())
    } else {
        format_entries(settings, s.drop_last()).push(
            entry_line_of(settings.long_list, s.last().kind, s.last().name@),
        )
    }
}

/// The lines for one directory's entries: ordered per the active policy,
/// then filtered and formatted.
pub open spec fn dir_entry_lines(settings: Settings, s: Seq<DirEntry>) -> Seq<Seq<char>> {
    format_entries(settings, sort_entries(settings.sort, s))
}

/// The output lines for every classified directory: for each, its header
/// `path:` then its entry lines.
pub open spec fn all_dir_lines(
    settings: Settings,
    dirs: Seq<Seq<char>>,
    listings: Seq<Seq<DirEntry>>,
) -> Seq<Seq<char>>
    decreases dirs.len(),
{
    if dirs.len() == 0 {
        Seq::empty()
    } else {
        all_dir_lines(settings, dirs.drop_last(), listings.drop_last()) + seq![
            dirs.last() + ":"@,
        ] + dir_entry_lines(settings, listings.last())
    }
}

/// Clones a vector of entries.
fn clone_entries(v: &Vec<DirEntry>) -> (r: Vec<DirEntry>)
    ensures
        r@ == v@,
{
    let mut r: Vec<DirEntry> = Vec::new();
    let mut i: usize = 0;
    while i < v.len()
        invariant
            i <= v@.len(),
            r@ == v@.take(i as int),
        decreases v@.len() - i,
    {
        let e = DirEntry { name: v[i].name.clone(), kind: v[i].kind };
        r.push(e);
        proof {
            assert(e =~= v@[i as int]);
            assert(v@.take(i as int + 1) =~= v@.take(i as int).push(v@[i as int]));
        }
        i += 1;
    }
    proof {
        assert(v@.take(v@.len() as int) =~= v@);
    }
    r
}

impl Config {
    /// The lines for the regular-file arguments: each one's file-name
    /// component, in classification order.
    pub fn print_regular_files(&self) -> (lines: Vec<String>)
        ensures
            lines.deep_view() == regular_file_lines(self.regular_files.deep_view()),
    {
        let ghost ps = self.regular_files.deep_view();
        let mut lines: Vec<String> = Vec::new();
        let mut i: usize = 0;
        proof {
            assert(ps.take(0) =~= Seq::<Seq<char>>::empty());
            assert(lines.deep_view() =~= regular_file_lines(ps.take(0)));
        }
        while i < self.regular_files.len()
            invariant
                i <= self.regular_files@.len(),
                ps == self.regular_files.deep_view(),
                lines@.len() == i as int,
                lines.deep_view() == regular_file_lines(ps.take(i as int)),
            decreases self.regular_files@.len() - i,
        {
            let line = file_name(&self.regular_files[i]);
            let ghost lines_prev = lines.deep_view();
            lines.push(line);
            proof {
                assert(ps.take(i as int + 1).drop_last() =~= ps.take(i as int));
                assert(ps.take(i as int + 1).last() == ps[i as int]);
                assert(lines.deep_view() =~= lines_prev.push(file_name_of(ps[i as int])));
                assert(lines.deep_view() =~= regular_file_lines(ps.take(i as int + 1)));
            }
            i += 1;
        }
        proof {
            assert(ps.take(ps.len() as int) =~= ps);
        }
        lines
    }

    /// Orders the entries per the active policy, in place.
    pub fn sort_dir_entries(&self, entries: &mut Vec<DirEntry>)
        ensures
            final(entries)@ == sort_entries(self.settings.sort, old(entries)@),
    {
        sort_entry_vec(&self.settings.sort, entries);
    }

    /// The entries ordered per the active policy.
    pub fn get_sorted_dir_entries(&self, entries: Vec<DirEntry>) -> (r: Vec<DirEntry>)
        ensures
            r@ == sort_entries(self.settings.sort, entries@),
    {
        let mut sorted = entries;
        self.sort_dir_entries(&mut sorted);
        sorted
    }

    /// The line for one entry, or nothing when the entry is hidden and the
    /// list-all option is off.
    pub fn print_entry(&self, entry: &DirEntry) -> (line: Option<String>)
        ensures
            (line is Some) == (self.settings.list_all || !is_hidden(entry.name@)),
            line matches Some(l) ==> l@ == entry_line_of(
                self.settings.long_list,
                entry.kind,
                entry.name@,
            ),
    {
        if !self.settings.list_all && name_is_hidden(&entry.name) {
            None
        } else if self.settings.long_list {
            Some(make_long_list_string(entry.kind, entry.name.as_str()))
        } else {
            Some(entry.name.clone())
        }
    }

    /// The lines for one directory's entries: ordered per the active policy,
    /// then filtered and formatted, one line per entry that shows.
    pub fn print_dir_entries(&self, entries: Vec<DirEntry>) -> (lines: Vec<String>)
        ensures
            lines.deep_view() == dir_entry_lines(self.settings, entries@),
    {
        let sorted = self.get_sorted_dir_entries(entries);
        let mut lines: Vec<String> = Vec::new();
        let mut k: usize = 0;
        proof {
            assert(sorted@.take(0) =~= Seq::<DirEntry>::empty());
            assert(lines.deep_view() =~= format_entries(self.settings, sorted@.take(0)));
        }
        while k < sorted.len()
            invariant
                k <= sorted@.len(),
                lines@.len() == format_entries(self.settings, sorted@.take(k as int)).len(),
                lines.deep_view() == format_entries(self.settings, sorted@.take(k as int)),
            decreases sorted@.len() - k,
        {
            let line = self.print_entry(&sorted[k]);
            let ghost lines_prev = lines.deep_view();
            match line {
                Option::Some(l) => {
                    lines.push(l);
                },
                Option::None => {},
            }
            proof {
                assert(sorted@.take(k as int + 1).drop_last() =~= sorted@.take(k as int));
                assert(sorted@.take(k as int + 1).last() == sorted@[k as int]);
                if self.settings.list_all || !is_hidden(sorted@[k as int].name@) {
                    assert(lines.deep_view() =~= lines_prev.push(
                        entry_line_of(
                            self.settings.long_list,
                            sorted@[k as int].kind,
                            sorted@[k as int].name@,
                        ),
                    ));
                }
                assert(lines.deep_view() =~= format_entries(
                    self.settings,
                    sorted@.take(k as int + 1),
                ));
            }
            k += 1;
        }
        proof {
            assert(sorted@.take(sorted@.len() as int) =~= sorted@);
        }
        lines
    }

    /// The lines for one directory: its header `path:`, then its entries'
    /// lines.
    pub fn dir_lines(&self, dir: &String, entries: Vec<DirEntry>) -> (lines: Vec<String>)
        ensures
            lines.deep_view() == seq![dir@ + ":"@] + dir_entry_lines(self.settings, entries@),
    {
        let mut lines: Vec<String> = Vec::new();
        let mut header = dir.clone();
        header.append(":");
        lines.push(header);
        let mut rest = self.print_dir_entries(entries);
        let ghost head = lines.deep_view();
        let ghost rest_v = rest.deep_view();
        lines.append(&mut rest);
        proof {
            assert(head =~= seq![dir@ + ":"@]);
            assert(lines.deep_view() =~= head + rest_v);
        }
        lines
    }

    /// The output lines for every classified directory, `listings` holding
    /// the entries the caller read for each, in classification order.
    pub fn print_directories(&self, listings: &Vec<Vec<DirEntry>>) -> (lines: Vec<String>)
        requires
            listings@.len() == self.directories@.len(),
        ensures
            lines.deep_view() == all_dir_lines(
                self.settings,
                self.directories.deep_view(),
                listings.deep_view(),
            ),
    {
        let ghost dirs_v = self.directories.deep_view();
        let ghost ls_v = listings.deep_view();
        let mut lines: Vec<String> = Vec::new();
        let mut i: usize = 0;
        proof {
            assert(dirs_v.take(0) =~= Seq::<Seq<char>>::empty());
            assert(ls_v.take(0) =~= Seq::<Seq<DirEntry>>::empty());
            assert(lines.deep_view() =~= all_dir_lines(
                self.settings,
                dirs_v.take(0),
                ls_v.take(0),
            ));
        }
        while i < self.directories.len()
            invariant
                i <= self.directories@.len(),
                listings@.len() == self.directories@.len(),
                dirs_v == self.directories.deep_view(),
                ls_v == listings.deep_view(),
                lines@.len() == all_dir_lines(
                    self.settings,
                    dirs_v.take(i as int),
                    ls_v.take(i as int),
                ).len(),
                lines.deep_view() == all_dir_lines(
                    self.settings,
                    dirs_v.take(i as int),
                    ls_v.take(i as int),
                ),
            decreases self.directories@.len() - i,
        {
            let entries = clone_entries(&listings[i]);
            proof {
                assert(listings@[i as int].deep_view() =~= listings@[i as int]@);
                assert(entries@ == ls_v[i as int]);
            }
            let mut block = self.dir_lines(&self.directories[i], entries);
            let ghost lines_prev = lines.deep_view();
            let ghost block_v = block.deep_view();
            lines.append(&mut block);
            proof {
                assert(lines.deep_view() =~= lines_prev + block_v);
                assert(dirs_v.take(i as int + 1).drop_last() =~= dirs_v.take(i as int));
                assert(ls_v.take(i as int + 1).drop_last() =~= ls_v.take(i as int));
                assert(dirs_v.take(i as int + 1).last() == dirs_v[i as int]);
                assert(ls_v.take(i as int + 1).last() == ls_v[i as int]);
                assert(lines.deep_view() =~= all_dir_lines(
                    self.settings,
                    dirs_v.take(i as int + 1),
                    ls_v.take(i as int + 1),
                ));
            }
            i += 1;
        }
        proof {
            assert(dirs_v.take(dirs_v.len() as int) =~= dirs_v);
            assert(ls_v.take(ls_v.len() as int) =~= ls_v);
        }
        lines
    }
}

} // verus!
