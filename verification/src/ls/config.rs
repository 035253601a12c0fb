//! Classification of command-line tokens into options and path names.
//!
//! The scan never touches the filesystem itself: the caller probes each path
//! token and hands the outcome in as a [`PathInfo`] value.

use vstd::prelude::*;

use crate::ls::file::{Directory, File, LsError};
use crate::ls::long_list_utils::{is_hidden, name_is_hidden};
use crate::unix::config::{file_name, file_name_of, lex_leq, lex_leq_names, regular_file_lines};

verus! {

/// The probe outcome the caller supplies for one path argument: an existing
/// regular file, an existing directory together with the names of its
/// entries, or nothing at that path.
pub enum PathInfo {
    RegularFile,
    Directory(Vec<String>),
    Missing,
}

/// The view of a probe outcome.
pub enum PathInfoV {
    RegularFile,
    Directory(Seq<Seq<char>>),
    Missing,
}

impl View for PathInfo {
    type V = PathInfoV;

    open spec fn view(&self) -> PathInfoV {
        match self {
            PathInfo::RegularFile => PathInfoV::RegularFile,
            PathInfo::Directory(names) => PathInfoV::Directory(names.deep_view()),
            PathInfo::Missing => PathInfoV::Missing,
        }
    }
}

impl DeepView for PathInfo {
    type V = PathInfoV;

    open spec fn deep_view(&self) -> PathInfoV {
        self.view()
    }
}

/// A token is an option token when it begins with the marker `-` and has at
/// least one character after it; anything else is a path name.
pub open spec fn ls_option_token(t: Seq<char>) -> bool {
    t.len() > 1 && t[0] == '-'
}

/// The diagnostic recorded for a path token that named nothing.
pub open spec fn error_line(t: Seq<char>) -> Seq<char> {
    "could not find file or directory: "@ + t
}

/// Whether `cs` contains the character `c`.
pub open spec fn has_char(cs: Seq<char>, c: char) -> bool
    decreases cs.len(),
{
    if cs.len() == 0 {
        false
    } else {
        has_char(cs.drop_last(), c) || cs.last() == c
    }
}

/// The characters of `cs` other than the recognized options `a` and `l`, in
/// order.
pub open spec fn unrecognized_ls_chars(cs: Seq<char>) -> Seq<char>
    decreases cs.len(),
{
    if cs.len() == 0 {
        Seq::empty()
    } else if cs.last() == 'a' || cs.last() == 'l' {
        unrecognized_ls_chars(cs.drop_last())
    } else {
        unrecognized_ls_chars(cs.drop_last()).push(cs.last())
    }
}

/// The unrecognized option characters of a token sequence, in order.
pub open spec fn unrecognized_of_tokens(ts: Seq<Seq<char>>) -> Seq<char>
    decreases ts.len(),
{
    if ts.len() == 0 {
        Seq::empty()
    } else {
        unrecognized_of_tokens(ts.drop_last()) + (if ls_option_token(ts.last()) {
            unrecognized_ls_chars(ts.last().skip(1))
        } else {
            Seq::empty()
        })
    }
}

/// Everything the argument scan has collected: the classified path lists,
/// the path tokens themselves, and the option flags this flavour applies.
#[verifier::ext_equal]
pub struct LsClassified {
    pub files: Seq<Seq<char>>,
    pub dirs: Seq<(Seq<char>, Seq<Seq<char>>)>,
    pub errors: Seq<Seq<char>>,
    pub path_names: Seq<Seq<char>>,
    pub list_all: bool,
    pub long_list: bool,
}

/// The scan before any token: nothing collected, both flags off.
pub open spec fn initial_classified() -> LsClassified {
    LsClassified {
        files: Seq::empty(),
        dirs: Seq::empty(),
        errors: Seq::empty(),
        path_names: Seq::empty(),
        list_all: false,
        long_list: false,
    }
}

/// The effect of collecting one path token with its probe outcome: the token
/// joins exactly one of the three lists, and the path-name record in every
/// case.
pub open spec fn collect_step(acc: LsClassified, t: Seq<char>, info: PathInfoV) -> LsClassified {
    let with_name = LsClassified { path_names: acc.path_names.push(t), ..acc };
    match info {
        PathInfoV::RegularFile => LsClassified { files: with_name.files.push(t), ..with_name },
        PathInfoV::Directory(names) => LsClassified {
            dirs: with_name.dirs.push((t, names)),
            ..with_name
        },
        PathInfoV::Missing => LsClassified {
            errors: with_name.errors.push(error_line(t)),
            ..with_name
        },
    }
}

/// The effect of one token on the scan.
pub open spec fn classify_step(acc: LsClassified, t: Seq<char>, info: PathInfoV) -> LsClassified {
    if ls_option_token(t) {
        LsClassified {
            list_all: acc.list_all || has_char(t.skip(1), 'a'),
            long_list: acc.long_list || has_char(t.skip(1), 'l'),
            ..acc
        }
    } else {
        collect_step(acc, t, info)
    }
}

/// The scan after every token of `ts`, each with its probe outcome in `is`.
pub open spec fn classify_all(acc: LsClassified, ts: Seq<Seq<char>>, is: Seq<PathInfoV>) -> LsClassified
    decreases ts.len(),
{
    if ts.len() == 0 {
        acc
    } else {
        classify_step(classify_all(acc, ts.drop_last(), is.drop_last()), ts.last(), is.last())
    }
}

/// The scan of a whole argument list: every token, and, when no token named
/// an existing file or directory, the current working directory `.` as the
/// collected default.
pub open spec fn parse_args_model(ts: Seq<Seq<char>>, is: Seq<PathInfoV>, cwd: PathInfoV) -> LsClassified {
    let c = classify_all(initial_classified(), ts, is);
    if c.files.len() == 0 && c.dirs.len() == 0 {
        collect_step(c, "."@, cwd)
    } else {
        c
    }
}

/// `n` inserted into the names `s` from the right: after every name at or
/// before it in lexicographic order, so a name never moves past an equal
/// one.
pub open spec fn insert_name_sorted(n: Seq<char>, s: Seq<Seq<char>>) -> Seq<Seq<char>>
    decreases s.len(),
{
    if s.len() == 0 {
        seq![n]
    } else if lex_leq(s.last(), n) {
        s.push(n)
    } else {
        insert_name_sorted(n, s.drop_last()).push(s.last())
    }
}

/// The names in ascending lexicographic order: this flavour has no sort
/// policy, so the default order — alphabetic ascending — always applies.
pub open spec fn sort_names(s: Seq<Seq<char>>) -> Seq<Seq<char>>
    decreases s.len(),
{
    if s.len() == 0 {
        s
    } else {
        insert_name_sorted(s.last(), sort_names(s.drop_last()))
    }
}

proof fn lemma_insert_name_sorted_len(n: Seq<char>, s: Seq<Seq<char>>)
    ensures
        insert_name_sorted(n, s).len() == s.len() + 1,
    decreases s.len(),
{
    if s.len() == 0 {
    } else if lex_leq(s.last(), n) {
    } else {
        lemma_insert_name_sorted_len(n, s.drop_last());
    }
}

/// Where the insertion lands: when every name from `j` on may not stand
/// before `n`, and the name before `j` (if any) may, then `n` lands at
/// position `j`.
proof fn lemma_insert_name_sorted_at(n: Seq<char>, s: Seq<Seq<char>>, j: int)
    requires
        0 <= j <= s.len(),
        j > 0 ==> lex_leq(s[j - 1], n),
        forall|k: int| j <= k < s.len() ==> !lex_leq(s[k], n),
    ensures
        insert_name_sorted(n, s) == s.subrange(0, j) + seq![n] + s.subrange(j, s.len() as int),
    decreases s.len(),
{
    if j == s.len() {
        if s.len() == 0 {
            assert(s.subrange(0, 0) + seq![n] + s.subrange(0, 0) =~= seq![n]);
        } else {
            assert(lex_leq(s.last(), n));
            assert(s.subrange(0, j) =~= s);
            assert(s.subrange(j, s.len() as int) =~= Seq::<Seq<char>>::empty());
            assert(s.subrange(0, j) + seq![n] + s.subrange(j, s.len() as int) =~= s.push(n));
        }
    } else {
        assert(!lex_leq(s.last(), n));
        lemma_insert_name_sorted_at(n, s.drop_last(), j);
        assert(s.drop_last().subrange(0, j) =~= s.subrange(0, j));
        assert(s.drop_last().subrange(j, s.len() - 1) =~= s.subrange(j, s.len() - 1));
        assert((s.subrange(0, j) + seq![n] + s.subrange(j, s.len() - 1)).push(s.last()) =~= s
            .subrange(0, j) + seq![n] + s.subrange(j, s.len() as int));
    }
}

/// Orders the names ascending, in place.
fn sort_file_names(names: &mut Vec<String>)
    ensures
        final(names).deep_view() == sort_names(old(names).deep_view()),
{
    let ghost dv0 = names.deep_view();
    if names.len() <= 1 {
        proof {
            if dv0.len() == 1 {
                assert(dv0.drop_last() =~= Seq::<Seq<char>>::empty());
                assert(sort_names(dv0.drop_last()) == dv0.drop_last());
                assert(sort_names(dv0) =~= dv0);
            }
        }
    } else {
        let mut i: usize = 1;
        proof {
            assert(dv0.take(1).drop_last() =~= Seq::<Seq<char>>::empty());
            assert(dv0.take(1).last() == dv0[0]);
            assert(sort_names(Seq::<Seq<char>>::empty()) == Seq::<Seq<char>>::empty());
            assert(insert_name_sorted(dv0[0], Seq::<Seq<char>>::empty()) == seq![dv0[0]]);
            assert(sort_names(dv0.take(1)) =~= seq![dv0[0]]);
            assert(names.deep_view() =~= sort_names(dv0.take(1)) + dv0.skip(1));
        }
        while i < names.len()
            invariant
                1 <= i <= names@.len(),
                names@.len() == dv0.len(),
                dv0 == old(names).deep_view(),
                names.deep_view() == sort_names(dv0.take(i as int)) + dv0.skip(i as int),
                sort_names(dv0.take(i as int)).len() == i as int,
            decreases names@.len() - i,
        {
            let ghost before = names.deep_view();
            let ghost prefix = sort_names(dv0.take(i as int));
            let mut j: usize = i;
            while j > 0 && !lex_leq_names(names[j - 1].as_str(), names[i].as_str())
                invariant
                    j <= i,
                    i < names@.len(),
                    names.deep_view() == before,
                    forall|k: int| j <= k < i ==> !lex_leq(before[k], before[i as int]),
                decreases j,
            {
                j -= 1;
            }
            let ghost n_val = before[i as int];
            let x = names.remove(i);
            proof {
                assert(x@ == n_val);
                assert(names.deep_view() =~= before.remove(i as int));
            }
            names.insert(j, x);
            proof {
                assert(names.deep_view() =~= before.remove(i as int).insert(j as int, n_val));
                assert(forall|k: int| 0 <= k < i ==> prefix[k] == before[k]);
                assert(forall|k: int| j <= k < prefix.len() ==> !lex_leq(prefix[k], n_val));
                lemma_insert_name_sorted_at(n_val, prefix, j as int);
                assert(before.remove(i as int) =~= prefix + dv0.skip(i as int + 1));
                assert(names.deep_view() =~= (prefix.subrange(0, j as int) + seq![n_val]
                    + prefix.subrange(j as int, prefix.len() as int)) + dv0.skip(i as int + 1));
                assert(names.deep_view() =~= insert_name_sorted(n_val, prefix) + dv0.skip(
                    i as int + 1,
                ));
                assert(dv0.take(i as int + 1).drop_last() =~= dv0.take(i as int));
                assert(dv0.take(i as int + 1).last() == n_val);
                assert(sort_names(dv0.take(i as int + 1)) == insert_name_sorted(n_val, prefix));
                lemma_insert_name_sorted_len(n_val, prefix);
            }
            i += 1;
        }
        proof {
            assert(dv0.take(dv0.len() as int) =~= dv0);
            assert(dv0.skip(dv0.len() as int) =~= Seq::<Seq<char>>::empty());
            assert(names.deep_view() =~= sort_names(dv0));
        }
    }
}

/// The names that show: hidden ones are skipped unless the list-all flag is
/// on.
pub open spec fn visible_names(list_all: bool, names: Seq<Seq<char>>) -> Seq<Seq<char>>
    decreases names.len(),
{
    if names.len() == 0 {
        Seq::empty()
    } else if !list_all && is_hidden(names.last()) {
        visible_names(list_all, names.drop_last())
    } else {
        visible_names(list_all, names.drop_last()).push(names.last())
    }
}

/// The lines printed for the collected directories: for each, its path
/// followed by `:`, then its entry names in ascending order, hidden ones
/// skipped unless the list-all flag is on.
pub open spec fn dir_lines_of(list_all: bool, ds: Seq<(Seq<char>, Seq<Seq<char>>)>) -> Seq<
    Seq<char>,
>
    decreases ds.len(),
{
    if ds.len() == 0 {
        Seq::empty()
    } else {
        dir_lines_of(list_all, ds.drop_last()) + seq![ds.last().0 + ":"@] + visible_names(
            list_all,
            sort_names(ds.last().1),
        )
    }
}

/// The configuration for one run: the classified path arguments and the
/// option flags.
pub struct Config {
    pub file_vec: Vec<File>,
    pub dir_vec: Vec<Directory>,
    pub error_vec: Vec<LsError>,
    pub path_name_vec: Vec<String>,
    pub long_list: bool,
    pub list_all: bool,
}

/// The scan state a configuration holds.
pub open spec fn config_model(c: Config) -> LsClassified {
    LsClassified {
        files: c.file_vec.deep_view(),
        dirs: c.dir_vec.deep_view(),
        errors: c.error_vec.deep_view(),
        path_names: c.path_name_vec.deep_view(),
        list_all: c.list_all,
        long_list: c.long_list,
    }
}

/// Clones a vector of names.
fn clone_names(v: &Vec<String>) -> (r: Vec<String>)
    ensures
        r@ == v@,
{
    let mut r: Vec<String> = Vec::new();
    let mut i: usize = 0;
    while i < v.len()
        invariant
            i <= v.len(),
            r@ == v@.take(i as int),
        decreases v.len() - i,
    {
        r.push(v[i].clone());
        proof {
            assert(v@.take(i as int + 1) =~= v@.take(i as int).push(v@[i as int]));
        }
        i += 1;
    }
    proof {
        assert(v@.take(v.len() as int) =~= v@);
    }
    r
}

impl Config {
    /// A configuration with nothing collected and every option off.
    pub fn default() -> (c: Config)
        ensures
            config_model(c) == initial_classified(),
    {
        let c = Config {
            file_vec: Vec::new(),
            dir_vec: Vec::new(),
            error_vec: Vec::new(),
            path_name_vec: Vec::new(),
            long_list: false,
            list_all: false,
        };
        proof {
            assert(config_model(c) =~= initial_classified());
        }
        c
    }

    /// Applies one option character: `a` enables list-all and `l` enables the
    /// long listing. `r` stays unrecognized here: this flavour has no sort
    /// policy to reverse. Returns whether the character was recognized, so
    /// the caller can report the others; an unrecognized character changes
    /// nothing.
    pub fn set_option(&mut self, c: char) -> (recognized: bool)
        ensures
            final(self).list_all == (old(self).list_all || c == 'a'),
            final(self).long_list == (old(self).long_list || c == 'l'),
            final(self).file_vec == old(self).file_vec,
            final(self).dir_vec == old(self).dir_vec,
            final(self).error_vec == old(self).error_vec,
            final(self).path_name_vec == old(self).path_name_vec,
            recognized == (c == 'a' || c == 'l'),
    {
        if c == 'a' {
            self.list_all = true;
            true
        } else if c == 'l' {
            self.long_list = true;
            true
        } else {
            false
        }
    }

    /// Collects one path token according to its probe outcome: an existing
    /// regular file into `file_vec`, an existing directory with its entry
    /// names into `dir_vec`, and a diagnostic into `error_vec` otherwise.
    /// The token itself is recorded in `path_name_vec` in every case.
    pub fn collect_file(&mut self, path_name: &String, info: &PathInfo)
        ensures
            config_model(*final(self)) == collect_step(
                config_model(*old(self)),
                path_name@,
                info@,
            ),
            final(self).long_list == old(self).long_list,
            final(self).list_all == old(self).list_all,
    {
        self.path_name_vec.push(path_name.clone());
        match info {
            PathInfo::RegularFile => {
                self.file_vec.push(File { file_str: path_name.clone() });
            },
            PathInfo::Directory(names) => {
                let copied = clone_names(names);
                self.dir_vec.push(
                    Directory { dir_str: path_name.clone(), file_name_vec: copied },
                );
            },
            PathInfo::Missing => {
                let mut line = String::from_str("could not find file or directory: ");
                line.append(path_name.as_str());
                self.error_vec.push(LsError { error_str: line });
            },
        }
        proof {
            assert(config_model(*self) =~~= collect_step(
                config_model(*old(self)),
                path_name@,
                info@,
            ));
        }
    }

    /// Scans the arguments after the program name. Each character of an
    /// option token is applied as an option flag; every other token is
    /// collected as a path name according to its probe outcome in `infos`.
    /// When no token named an existing file or directory, the current working
    /// directory `.` is collected with outcome `cwd_info`. The unrecognized
    /// option characters are returned in order; they never stop the scan.
    pub fn parse_args(args: &Vec<String>, infos: &Vec<PathInfo>, cwd_info: &PathInfo) -> (r: (
        Config,
        Vec<char>,
    ))
        requires
            args@.len() >= 1,
            infos@.len() == args@.len(),
        ensures
            config_model(r.0) == parse_args_model(
                args.deep_view().skip(1),
                infos.deep_view().skip(1),
                cwd_info@,
            ),
            r.1@ == unrecognized_of_tokens(args.deep_view().skip(1)),
    {
        let ghost ts = args.deep_view().skip(1);
        let ghost is = infos.deep_view().skip(1);
        let mut config = Config::default();
        let mut unrecognized: Vec<char> = Vec::new();
        let mut i: usize = 1;
        proof {
            assert(ts.take(0) =~= Seq::<Seq<char>>::empty());
            assert(is.take(0) =~= Seq::<PathInfoV>::empty());
        }
        while i < args.len()
            invariant
                1 <= i <= args@.len(),
                infos@.len() == args@.len(),
                ts == args.deep_view().skip(1),
                is == infos.deep_view().skip(1),
                config_model(config) == classify_all(
                    initial_classified(),
                    ts.take(i as int - 1),
                    is.take(i as int - 1),
                ),
                unrecognized@ == unrecognized_of_tokens(ts.take(i as int - 1)),
            decreases args@.len() - i,
        {
            let arg: &String = &args[i];
            let ghost t = arg@;
            let ghost info_v = is[i as int - 1];
            let n = arg.as_str().unicode_len();
            let ghost config_before = config;
            let ghost unrecognized_before = unrecognized@;
            if n > 1 && arg.as_str().get_char(0) == '-' {
                let mut j: usize = 1;
                proof {
                    assert(t.subrange(1, 1) =~= Seq::<char>::empty());
                }
                while j < n
                    invariant
                        1 <= j <= n,
                        n == t.len(),
                        t == arg@,
                        config.list_all == (config_before.list_all || has_char(
                            t.subrange(1, j as int),
                            'a',
                        )),
                        config.long_list == (config_before.long_list || has_char(
                            t.subrange(1, j as int),
                            'l',
                        )),
                        config.file_vec == config_before.file_vec,
                        config.dir_vec == config_before.dir_vec,
                        config.error_vec == config_before.error_vec,
                        config.path_name_vec == config_before.path_name_vec,
                        unrecognized@ == unrecognized_before + unrecognized_ls_chars(
                            t.subrange(1, j as int),
                        ),
                    decreases n - j,
                {
                    let c = arg.as_str().get_char(j);
                    let recognized = config.set_option(c);
                    if !recognized {
                        unrecognized.push(c);
                    }
                    proof {
                        assert(t.subrange(1, j as int + 1).drop_last() =~= t.subrange(
                            1,
                            j as int,
                        ));
                        assert(t.subrange(1, j as int + 1).last() == t[j as int]);
                    }
                    j += 1;
                }
                proof {
                    assert(t.subrange(1, n as int) =~= t.skip(1));
                    assert(config_model(config) =~~= classify_step(
                        config_model(config_before),
                        t,
                        info_v,
                    ));
                }
            } else {
                proof {
                    assert(!ls_option_token(t));
                    assert(infos.deep_view()[i as int] == infos@[i as int]@);
                    assert(info_v == infos@[i as int]@);
                }
                config.collect_file(arg, &infos[i]);
            }
            proof {
                assert(ts.take(i as int).drop_last() =~= ts.take(i as int - 1));
                assert(is.take(i as int).drop_last() =~= is.take(i as int - 1));
                assert(ts.take(i as int).last() == t);
                assert(is.take(i as int).last() == info_v);
                assert(unrecognized_of_tokens(ts.take(i as int)) == unrecognized_of_tokens(
                    ts.take(i as int - 1),
                ) + (if ls_option_token(t) {
                    unrecognized_ls_chars(t.skip(1))
                } else {
                    Seq::<char>::empty()
                }));
                if !ls_option_token(t) {
                    assert(unrecognized@ =~= unrecognized_of_tokens(ts.take(i as int)));
                }
            }
            i += 1;
        }
        proof {
            assert(ts.take(args@.len() - 1) =~= ts);
            assert(is.take(args@.len() - 1) =~= is);
        }
        if config.file_vec.len() == 0 && config.dir_vec.len() == 0 {
            let dot = String::from_str(".");
            config.collect_file(&dot, cwd_info);
        }
        (config, unrecognized)
    }

    /// The diagnostic lines recorded for path arguments that named nothing,
    /// in classification order.
    pub fn print_errors(&self) -> (lines: Vec<String>)
        ensures
            lines.deep_view() == self.error_vec.deep_view(),
    {
        let mut lines: Vec<String> = Vec::new();
        let mut i: usize = 0;
        while i < self.error_vec.len()
            invariant
                i <= self.error_vec@.len(),
                lines@.len() == i as int,
                lines.deep_view() == self.error_vec.deep_view().take(i as int),
            decreases self.error_vec@.len() - i,
        {
            lines.push(self.error_vec[i].error_str.clone());
            proof {
                assert(lines.deep_view() =~= self.error_vec.deep_view().take(i as int + 1));
            }
            i += 1;
        }
        proof {
            assert(self.error_vec.deep_view().take(self.error_vec@.len() as int)
                =~= self.error_vec.deep_view());
        }
        lines
    }

    /// The collected regular files, one line each showing the file-name
    /// component (not the full path), in classification order.
    pub fn print_files(&self) -> (lines: Vec<String>)
        ensures
            lines.deep_view() == regular_file_lines(self.file_vec.deep_view()),
    {
        let ghost ps = self.file_vec.deep_view();
        let mut lines: Vec<String> = Vec::new();
        let mut i: usize = 0;
        proof {
            assert(ps.take(0) =~= Seq::<Seq<char>>::empty());
            assert(lines.deep_view() =~= regular_file_lines(ps.take(0)));
        }
        while i < self.file_vec.len()
            invariant
                i <= self.file_vec@.len(),
                ps == self.file_vec.deep_view(),
                lines@.len() == i as int,
                lines.deep_view() == regular_file_lines(ps.take(i as int)),
            decreases self.file_vec@.len() - i,
        {
            let line = file_name(&self.file_vec[i].file_str);
            let ghost lines_prev = lines.deep_view();
            lines.push(line);
            proof {
                assert(ps.take(i as int + 1).drop_last() =~= ps.take(i as int));
                assert(ps.take(i as int + 1).last() == ps[i as int]);
                assert(lines.deep_view() =~= lines_prev.push(file_name_of(ps[i as int])));
                assert(lines.deep_view() =~= regular_file_lines(ps.take(i as int + 1)));
            }
            i += 1;
        }
        proof {
            assert(ps.take(ps.len() as int) =~= ps);
        }
        lines
    }

    /// The lines for the collected directories: each directory's path
    /// followed by `:`, then its entry names in ascending order, hidden ones
    /// skipped unless the list-all flag is on. Each entry shows by its bare
    /// name: the long format needs the entry's kind, which this record does
    /// not hold; this flavour's long format lives in `process_entry`.
    pub fn print_dirs(&self) -> (lines: Vec<String>)
        ensures
            lines.deep_view() == dir_lines_of(self.list_all, self.dir_vec.deep_view()),
    {
        let ghost ds = self.dir_vec.deep_view();
        let mut lines: Vec<String> = Vec::new();
        let mut i: usize = 0;
        proof {
            assert(ds.take(0) =~= Seq::<(Seq<char>, Seq<Seq<char>>)>::empty());
        }
        while i < self.dir_vec.len()
            invariant
                i <= self.dir_vec@.len(),
                ds == self.dir_vec.deep_view(),
                lines@.len() == dir_lines_of(self.list_all, ds.take(i as int)).len(),
                lines.deep_view() == dir_lines_of(self.list_all, ds.take(i as int)),
            decreases self.dir_vec@.len() - i,
        {
            let ghost lines_before = lines.deep_view();
            let mut header = self.dir_vec[i].dir_str.clone();
            header.append(":");
            lines.push(header);
            let mut names = clone_names(&self.dir_vec[i].file_name_vec);
            proof {
                assert(names.deep_view() =~= ds[i as int].1);
            }
            sort_file_names(&mut names);
            let ghost sorted = sort_names(ds[i as int].1);
            proof {
                assert(names.deep_view() == sorted);
            }
            let mut j: usize = 0;
            proof {
                assert(sorted.take(0) =~= Seq::<Seq<char>>::empty());
                assert(lines.deep_view() =~= lines_before + seq![ds[i as int].0 + ":"@]
                    + visible_names(self.list_all, sorted.take(0)));
            }
            while j < names.len()
                invariant
                    j <= names@.len(),
                    ds == self.dir_vec.deep_view(),
                    i < self.dir_vec@.len(),
                    sorted == sort_names(ds[i as int].1),
                    names.deep_view() == sorted,
                    names@.len() == sorted.len(),
                    lines@.len() == lines_before.len() + 1 + visible_names(
                        self.list_all,
                        sorted.take(j as int),
                    ).len(),
                    lines.deep_view() == lines_before + seq![ds[i as int].0 + ":"@]
                        + visible_names(self.list_all, sorted.take(j as int)),
                decreases names@.len() - j,
            {
                let ghost lines_prev = lines.deep_view();
                if self.list_all || !name_is_hidden(&names[j]) {
                    lines.push(names[j].clone());
                }
                proof {
                    assert(sorted.take(j as int + 1).drop_last() =~= sorted.take(j as int));
                    assert(sorted.take(j as int + 1).last() == sorted[j as int]);
                    assert(names@[j as int]@ == sorted[j as int]);
                    if self.list_all || !is_hidden(sorted[j as int]) {
                        assert(lines.deep_view() =~= lines_prev.push(sorted[j as int]));
                    }
                    assert(lines.deep_view() =~= lines_before + seq![ds[i as int].0 + ":"@]
                        + visible_names(self.list_all, sorted.take(j as int + 1)));
                }
                j += 1;
            }
            proof {
                assert(sorted.take(sorted.len() as int) =~= sorted);
                assert(ds.take(i as int + 1).drop_last() =~= ds.take(i as int));
                assert(ds.take(i as int + 1).last() == ds[i as int]);
                assert(lines.deep_view() =~= dir_lines_of(
                    self.list_all,
                    ds.take(i as int + 1),
                ));
            }
            i += 1;
        }
        proof {
            assert(ds.take(self.dir_vec@.len() as int) =~= ds);
        }
        lines
    }
}

} // verus!
