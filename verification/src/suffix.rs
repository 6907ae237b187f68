//! Suffix schemes determine the suffix of rotated files.
//!
//! A rotated file is named `{basepath}.{suffix}`; the scheme decides what the
//! next suffix is, recognises suffixes of existing files, orders them from
//! most recent to oldest, and judges which are old enough to delete.

use crate::strings::{
    dec_digits_of, dec_digits_part, dec_val, lemma_dec_roundtrip, parse_usize, parses_as_usize,
    str_eq_exec, usize_to_string,
};
use crate::SuffixError;
use vstd::prelude::*;
use vstd::string::*;

verus! {

/// Representation of a suffix: totally ordered (most recent = smallest),
/// convertible to the string that is appended to the base filename.
pub trait Representation: Sized {
    /// Strict order: `self` is more recent than `other`.
    spec fn lt(self, other: Self) -> bool;

    /// Equivalence: same suffix (same rendered form).
    spec fn eqv(self, other: Self) -> bool;

    /// The rendered form of the suffix.
    spec fn display_spec(self) -> Seq<char>;

    /// `lt` is a strict total order modulo `eqv`, and `eqv` is a congruence
    /// for it.
    proof fn lt_laws(a: Self, b: Self, c: Self)
        ensures
            a.eqv(a),
            a.eqv(b) == b.eqv(a),
            a.eqv(b) && b.eqv(c) ==> a.eqv(c),
            a.eqv(b) ==> !a.lt(b),
            !(a.lt(b) && b.lt(a)),
            a.lt(b) && b.lt(c) ==> a.lt(c),
            a.eqv(b) || a.lt(b) || b.lt(a),
            a.eqv(b) ==> (a.lt(c) == b.lt(c)) && (c.lt(a) == c.lt(b)),
    ;

    fn lt_exec(&self, other: &Self) -> (r: bool)
        ensures
            r == self.lt(*other),
    ;

    fn eqv_exec(&self, other: &Self) -> (r: bool)
        ensures
            r == self.eqv(*other),
    ;

    /// Render the suffix as a string.
    fn to_display(&self) -> (r: String)
        ensures
            r@ == self.display_spec(),
    ;

    /// Create the path of the rotated file: `{basepath}.{suffix}`.
    fn to_path(&self, basepath: &str) -> (r: String)
        ensures
            r@ == basepath@ + seq!['.'] + self.display_spec(),
    {
        let mut s = String::from_str(basepath);
        s.append(".");
        let d = self.to_display();
        s.append(d.as_str());
        proof {
            reveal_strlit(".");
            assert("."@ =~= seq!['.']);
        }
        s
    }
}

/// The value of an optional reference.
pub open spec fn opt_deref<T>(o: Option<&T>) -> Option<T> {
    match o {
        Option::Some(t) => Option::Some(*t),
        Option::None => Option::None,
    }
}

/// A suffix found by a directory scan, together with whether the file
/// carried the compression marker.
#[derive(Debug, Clone)]
pub struct SuffixInfo<R> {
    pub suffix: R,
    pub compressed: bool,
}

/// Order of scan entries: by suffix order, an uncompressed entry before a
/// compressed one with the same suffix.
pub open spec fn info_lt<R: Representation>(a: SuffixInfo<R>, b: SuffixInfo<R>) -> bool {
    a.suffix.lt(b.suffix) || (a.suffix.eqv(b.suffix) && !a.compressed && b.compressed)
}

pub open spec fn info_eqv<R: Representation>(a: SuffixInfo<R>, b: SuffixInfo<R>) -> bool {
    a.suffix.eqv(b.suffix) && a.compressed == b.compressed
}

/// Strictly sorted, most recent first.
pub open spec fn sorted_infos<R: Representation>(s: Seq<SuffixInfo<R>>) -> bool {
    forall|i: int, j: int| 0 <= i < j < s.len() ==> info_lt(#[trigger] s[i], #[trigger] s[j])
}

proof fn info_lt_laws<R: Representation>(a: SuffixInfo<R>, b: SuffixInfo<R>, c: SuffixInfo<R>)
    ensures
        info_eqv(a, a),
        info_eqv(a, b) == info_eqv(b, a),
        info_eqv(a, b) ==> !info_lt(a, b),
        !(info_lt(a, b) && info_lt(b, a)),
        info_lt(a, b) && info_lt(b, c) ==> info_lt(a, c),
        info_eqv(a, b) || info_lt(a, b) || info_lt(b, a),
        info_eqv(a, b) ==> (info_lt(a, c) == info_lt(b, c)) && (info_lt(c, a) == info_lt(c, b)),
{
    R::lt_laws(a.suffix, b.suffix, c.suffix);
    R::lt_laws(b.suffix, c.suffix, a.suffix);
    R::lt_laws(c.suffix, a.suffix, b.suffix);
    R::lt_laws(b.suffix, a.suffix, c.suffix);
    R::lt_laws(a.suffix, c.suffix, b.suffix);
    R::lt_laws(c.suffix, b.suffix, a.suffix);
}

fn info_lt_exec<R: Representation>(a: &SuffixInfo<R>, b: &SuffixInfo<R>) -> (r: bool)
    ensures
        r == info_lt(*a, *b),
{
    if a.suffix.lt_exec(&b.suffix) {
        true
    } else if a.suffix.eqv_exec(&b.suffix) {
        !a.compressed && b.compressed
    } else {
        false
    }
}

fn info_eqv_exec<R: Representation>(a: &SuffixInfo<R>, b: &SuffixInfo<R>) -> (r: bool)
    ensures
        r == info_eqv(*a, *b),
{
    a.suffix.eqv_exec(&b.suffix) && a.compressed == b.compressed
}

/// Insert a scan entry into a sorted list, keeping it strictly sorted; an
/// entry equivalent to one already present is dropped.
fn insert_sorted<R: Representation>(v: &mut Vec<SuffixInfo<R>>, info: SuffixInfo<R>)
    requires
        sorted_infos(old(v)@),
    ensures
        sorted_infos(final(v)@),
        exists|k: int| 0 <= k < final(v)@.len() && info_eqv(#[trigger] final(v)@[k], info),
        forall|k: int|
            0 <= k < final(v)@.len() ==> old(v)@.contains(#[trigger] final(v)@[k]) || final(v)@[k]
                == info,
        forall|x: SuffixInfo<R>| old(v)@.contains(x) ==> final(v)@.contains(x),
{
    let mut i: usize = 0;
    while i < v.len()
        invariant
            i <= v@.len(),
            v@ == old(v)@,
            sorted_infos(v@),
            forall|k: int| 0 <= k < i ==> info_lt(#[trigger] v@[k], info),
        decreases v@.len() - i,
    {
        if info_lt_exec(&v[i], &info) {
            i = i + 1;
        } else if info_eqv_exec(&v[i], &info) {
            assert(v@.contains(v@[i as int])) by {
                assert(v@[i as int] == v@[i as int]);
            }
            assert(forall|x: SuffixInfo<R>| old(v)@.contains(x) ==> v@.contains(x));
            return ;
        } else {
            proof {
                info_lt_laws(v@[i as int], info, info);
                info_lt_laws(info, v@[i as int], info);
            }
            assert(info_lt(info, v@[i as int]));
            let ghost pre = v@;
            v.insert(i, info);
            proof {
                assert forall|p: int, q: int| 0 <= p < q < v@.len() implies info_lt(
                    v@[p],
                    v@[q],
                ) by {
                    info_lt_laws(v@[p], pre[i as int], v@[q]);
                    if p < i && q > i {
                        info_lt_laws(v@[p], info, v@[q]);
                    }
                }
                assert(info_eqv(v@[i as int], info)) by {
                    info_lt_laws(info, info, info);
                }
                assert forall|x: SuffixInfo<R>| pre.contains(x) implies v@.contains(x) by {
                    let k = choose|k: int| 0 <= k < pre.len() && pre[k] == x;
                    if k < i {
                        assert(v@[k] == x);
                    } else {
                        assert(v@[k + 1] == x);
                    }
                }
                assert forall|k: int| 0 <= k < v@.len() implies pre.contains(v@[k]) || v@[k]
                    == info by {
                    if k < i {
                        assert(pre[k] == v@[k]);
                    } else if k > i {
                        assert(pre[k - 1] == v@[k]);
                    }
                }
            }
            return ;
        }
    }
    let ghost pre = v@;
    v.push(info);
    proof {
        assert(info_eqv(v@[pre.len() as int], info)) by {
            info_lt_laws(info, info, info);
        }
        assert forall|p: int, q: int| 0 <= p < q < v@.len() implies info_lt(v@[p], v@[q]) by {
            if q < pre.len() {
                assert(v@[p] == pre[p] && v@[q] == pre[q]);
            } else {
                assert(v@[p] == pre[p] && v@[q] == info);
            }
        }
        assert forall|x: SuffixInfo<R>| pre.contains(x) implies v@.contains(x) by {
            let k = choose|k: int| 0 <= k < pre.len() && pre[k] == x;
            assert(v@[k] == x);
        }
        assert forall|k: int| 0 <= k < v@.len() implies pre.contains(v@[k]) || v@[k] == info by {
            if k < pre.len() {
                assert(pre[k] == v@[k]);
            }
        }
    }
}

/// Whether a filename carries the trailing compression marker `.gz`.
pub open spec fn ends_gz(name: Seq<char>) -> bool {
    name.len() >= 3 && name[name.len() - 3] == '.' && name[name.len() - 2] == 'g' && name[name.len()
        - 1] == 'z'
}

/// The filename with a trailing compression marker removed.
pub open spec fn gz_stripped(name: Seq<char>) -> Seq<char> {
    if ends_gz(name) {
        name.take(name.len() - 3)
    } else {
        name
    }
}

/// Strip the compression marker from a filename, reporting whether it was
/// present.
pub fn prepare_filename(path: &str) -> (r: (&str, bool))
    ensures
        r.0@ == gz_stripped(path@),
        r.1 == ends_gz(path@),
{
    let n = path.unicode_len();
    if n >= 3 && path.get_char(n - 3) == '.' && path.get_char(n - 2) == 'g' && path.get_char(n - 1)
        == 'z' {
        let stem = path.substring_char(0, n - 3);
        proof {
            assert(stem@ =~= path@.take(path@.len() - 3));
        }
        (stem, true)
    } else {
        (path, false)
    }
}

/// Whether a directory entry named `name` is a rotated file of `base`: after
/// stripping the compression marker it is `base`, a dot, and a parsable
/// suffix.
pub open spec fn candidate_matches<S: SuffixScheme>(
    scheme: S,
    base: Seq<char>,
    name: Seq<char>,
) -> bool {
    let stem = gz_stripped(name);
    &&& stem.len() > base.len()
    &&& stem.take(base.len() as int) == base
    &&& stem[base.len() as int] == '.'
    &&& scheme.parses(stem.skip(base.len() + 1 as int))
}

/// The scan entry that the directory entry `name` contributes.
pub open spec fn candidate_rel<S: SuffixScheme>(
    scheme: S,
    base: Seq<char>,
    name: Seq<char>,
    info: SuffixInfo<S::Repr>,
) -> bool {
    &&& candidate_matches(scheme, base, name)
    &&& scheme.parse_rel(gz_stripped(name).skip(base.len() + 1 as int), info.suffix)
    &&& info.compressed == ends_gz(name)
}

/// How to move files: how to rename, when to delete.
pub trait SuffixScheme: Sized {
    /// The representation of suffixes that this suffix scheme uses.
    type Repr: Representation;

    /// Which strings this scheme recognises as suffixes.
    spec fn parses(self, s: Seq<char>) -> bool;

    /// Which suffix value a recognised string denotes.
    spec fn parse_rel(self, s: Seq<char>, v: Self::Repr) -> bool;

    /// What `rotate_file` asks of its caller.
    spec fn rotate_pre(self, newest: Option<Self::Repr>, suffix: Option<Self::Repr>) -> bool;

    /// What `rotate_file` returns.
    spec fn rotate_post(
        self,
        newest: Option<Self::Repr>,
        suffix: Option<Self::Repr>,
        r: Result<Self::Repr, SuffixError>,
    ) -> bool;

    /// What `too_old` returns.
    spec fn too_old_post(self, suffix: Self::Repr, file_number: nat, r: bool) -> bool;

    /// A recognised string denotes one suffix value, up to equivalence.
    proof fn parse_rel_props(self, s: Seq<char>, v: Self::Repr, w: Self::Repr)
        ensures
            self.parse_rel(s, v) ==> self.parses(s),
            self.parse_rel(s, v) && v.eqv(w) ==> self.parse_rel(s, w),
    ;

    /// Compute the suffix that the file at `suffix` should be moved to;
    /// `suffix = None` means the live (un-suffixed) log file is rotated.
    /// The scheme moves no file itself. If the returned suffix's target
    /// already exists, the caller calls `rotate_file` again with `suffix`
    /// set to it (cascading). `newest_suffix` is the most recent existing
    /// suffix, offered as a hint.
    fn rotate_file(
        &mut self,
        basepath: &str,
        newest_suffix: Option<&Self::Repr>,
        suffix: &Option<Self::Repr>,
    ) -> (r: Result<Self::Repr, SuffixError>)
        requires
            old(self).rotate_pre(opt_deref(newest_suffix), *suffix),
        ensures
            *final(self) == *old(self),
            old(self).rotate_post(opt_deref(newest_suffix), *suffix, r),
    ;

    /// Parse a suffix from a string; `None` on any non-match.
    fn parse(&self, suffix: &str) -> (r: Option<Self::Repr>)
        ensures
            (r is Some) == self.parses(suffix@),
            r matches Some(v) ==> self.parse_rel(suffix@, v),
    ;

    /// Whether the file with this suffix and recency rank (0 = most recent)
    /// should be deleted under the scheme's file limit.
    fn too_old(&self, suffix: &Self::Repr, file_number: usize) -> (r: bool)
        ensures
            self.too_old_post(*suffix, file_number as nat, r),
    ;

}

/// Among the directory entries `filenames`, find those that are rotated
/// files of the base filename, and return them sorted from most recent to
/// oldest.
pub fn scan_suffixes<S: SuffixScheme>(scheme: &S, base_filename: &str, filenames: &Vec<String>) -> (r:
    Vec<SuffixInfo<S::Repr>>)
    ensures
        sorted_infos(r@),
        forall|x: SuffixInfo<S::Repr>| #[trigger] r@.contains(x) ==> exists|j: int|
            0 <= j < filenames@.len() && candidate_rel(*scheme, base_filename@, filenames@[j]@, x),
        forall|j: int|
            0 <= j < filenames@.len() && candidate_matches(
                *scheme,
                base_filename@,
                #[trigger] filenames@[j]@,
            ) ==> exists|x: SuffixInfo<S::Repr>|
                r@.contains(x) && candidate_rel(*scheme, base_filename@, filenames@[j]@, x),
{
    let mut result: Vec<SuffixInfo<S::Repr>> = Vec::new();
    let base_len = base_filename.unicode_len();
    let mut j: usize = 0;
    while j < filenames.len()
        invariant
            j <= filenames@.len(),
            base_len == base_filename@.len(),
            sorted_infos(result@),
            forall|x: SuffixInfo<S::Repr>| #[trigger] result@.contains(x) ==> exists|jj: int|
                0 <= jj < filenames@.len() && candidate_rel(
                    *scheme,
                    base_filename@,
                    filenames@[jj]@,
                    x,
                ),
            forall|jj: int|
                0 <= jj < j && candidate_matches(
                    *scheme,
                    base_filename@,
                    #[trigger] filenames@[jj]@,
                ) ==> exists|x: SuffixInfo<S::Repr>|
                    result@.contains(x) && candidate_rel(
                        *scheme,
                        base_filename@,
                        filenames@[jj]@,
                        x,
                    ),
        decreases filenames@.len() - j,
    {
        let name: &String = &filenames[j];
        let prepared = prepare_filename(name.as_str());
        let stem = prepared.0;
        let compressed = prepared.1;
        let slen = stem.unicode_len();
        let ghost namev = filenames@[j as int]@;
        if slen > base_len {
            let prefix = stem.substring_char(0, base_len);
            if str_eq_exec(prefix, base_filename) && stem.get_char(base_len) == '.' {
                let rest = stem.substring_char(base_len + 1, slen);
                proof {
                    assert(rest@ =~= gz_stripped(namev).skip(base_len + 1));
                    assert(gz_stripped(namev).take(base_len as int) =~= prefix@);
                }
                match scheme.parse(rest) {
                    Option::Some(v) => {
                        let info = SuffixInfo { suffix: v, compressed };
                        assert(candidate_rel(*scheme, base_filename@, namev, info));
                        let ghost pre = result@;
                        insert_sorted(&mut result, info);
                        proof {
                            assert forall|x: SuffixInfo<S::Repr>|
                                result@.contains(x) implies exists|jj: int|
                                0 <= jj < filenames@.len() && candidate_rel(
                                    *scheme,
                                    base_filename@,
                                    filenames@[jj]@,
                                    x,
                                ) by {
                                let k = choose|k: int|
                                    0 <= k < result@.len() && result@[k] == x;
                                if x == info {
                                    assert(candidate_rel(
                                        *scheme,
                                        base_filename@,
                                        filenames@[j as int]@,
                                        x,
                                    ));
                                } else {
                                    assert(pre.contains(x));
                                }
                            }
                            let k = choose|k: int|
                                0 <= k < result@.len() && info_eqv(#[trigger] result@[k], info);
                            <S::Repr as Representation>::lt_laws(
                                result@[k].suffix,
                                info.suffix,
                                info.suffix,
                            );
                            assert(info.suffix.eqv(result@[k].suffix));
                            scheme.parse_rel_props(rest@, info.suffix, result@[k].suffix);
                            assert(candidate_rel(*scheme, base_filename@, namev, result@[k]));
                            assert(result@.contains(result@[k]));
                            assert forall|jj: int|
                                0 <= jj < j + 1 && candidate_matches(
                                    *scheme,
                                    base_filename@,
                                    #[trigger] filenames@[jj]@,
                                ) implies exists|x: SuffixInfo<S::Repr>|
                                result@.contains(x) && candidate_rel(
                                    *scheme,
                                    base_filename@,
                                    filenames@[jj]@,
                                    x,
                                ) by {
                                if jj < j {
                                    let x = choose|x: SuffixInfo<S::Repr>|
                                        pre.contains(x) && candidate_rel(
                                            *scheme,
                                            base_filename@,
                                            filenames@[jj]@,
                                            x,
                                        );
                                    assert(result@.contains(x));
                                }
                            }
                        }
                    },
                    Option::None => {
                        assert(!candidate_matches(*scheme, base_filename@, namev));
                    },
                }
            } else {
                assert(!candidate_matches(*scheme, base_filename@, namev)) by {
                    if candidate_matches(*scheme, base_filename@, namev) {
                        assert(gz_stripped(namev).take(base_len as int) =~= prefix@);
                    }
                }
            }
        } else {
            assert(!candidate_matches(*scheme, base_filename@, namev));
        }
        j = j + 1;
    }
    result
}

/// Append a number when rotating the file.
/// The greater the number, the older. The oldest files are deleted.
pub struct AppendCount {
    max_files: usize,
}

impl AppendCount {
    /// The configured upper bound on the number of rotated files.
    pub closed spec fn spec_max_files(self) -> usize {
        self.max_files
    }

    /// New suffix scheme, deleting files when the number of rotated files
    /// (excluding the main file) exceeds `max_files`.
    pub fn new(max_files: usize) -> (r: AppendCount)
        ensures
            r.spec_max_files() == max_files,
    {
        AppendCount { max_files }
    }
}

impl Representation for usize {
    open spec fn lt(self, other: usize) -> bool {
        self < other
    }

    open spec fn eqv(self, other: usize) -> bool {
        self == other
    }

    open spec fn display_spec(self) -> Seq<char> {
        dec_digits_of(self as nat)
    }

    proof fn lt_laws(a: usize, b: usize, c: usize) {
    }

    fn lt_exec(&self, other: &usize) -> (r: bool) {
        *self < *other
    }

    fn eqv_exec(&self, other: &usize) -> (r: bool) {
        *self == *other
    }

    fn to_display(&self) -> (r: String) {
        usize_to_string(*self)
    }
}

/// The number assigned by [`AppendCount`] when the file at `suffix` is
/// displaced: 1 for the live file, one more than its own number for an
/// already-rotated file.
pub open spec fn count_rotation_target(suffix: Option<usize>) -> int {
    match suffix {
        Option::Some(n) => n + 1,
        Option::None => 1,
    }
}

impl SuffixScheme for AppendCount {
    type Repr = usize;

    open spec fn parses(self, s: Seq<char>) -> bool {
        parses_as_usize(s)
    }

    open spec fn parse_rel(self, s: Seq<char>, v: usize) -> bool {
        parses_as_usize(s) && v == dec_val(dec_digits_part(s))
    }

    open spec fn rotate_pre(self, newest: Option<usize>, suffix: Option<usize>) -> bool {
        suffix matches Option::Some(n) ==> n < usize::MAX
    }

    open spec fn rotate_post(
        self,
        newest: Option<usize>,
        suffix: Option<usize>,
        r: Result<usize, SuffixError>,
    ) -> bool {
        r matches Result::Ok(v) && v == count_rotation_target(suffix)
    }

    open spec fn too_old_post(self, suffix: usize, file_number: nat, r: bool) -> bool {
        r == (file_number >= self.spec_max_files())
    }

    proof fn parse_rel_props(self, s: Seq<char>, v: usize, w: usize) {
    }

    fn rotate_file(
        &mut self,
        basepath: &str,
        newest_suffix: Option<&usize>,
        suffix: &Option<usize>,
    ) -> (r: Result<usize, SuffixError>) {
        match suffix {
            Option::Some(n) => Result::Ok(*n + 1),
            Option::None => Result::Ok(1),
        }
    }

    fn parse(&self, suffix: &str) -> (r: Option<usize>) {
        parse_usize(suffix)
    }

    fn too_old(&self, suffix: &usize, file_number: usize) -> (r: bool) {
        file_number >= self.max_files
    }
}

/// A numeric suffix rendered and parsed back denotes the same number: the
/// round trip through the string form is lossless.
pub proof fn lemma_count_suffix_roundtrip(scheme: AppendCount, n: usize)
    ensures
        scheme.parses(n.display_spec()),
        forall|w: usize| scheme.parse_rel(n.display_spec(), w) ==> w == n,
{
    lemma_dec_roundtrip(n as nat);
}

/// A more recently assigned (smaller) number sorts before an older (larger)
/// one.
pub proof fn lemma_count_more_recent_first(a: usize, b: usize)
    ensures
        a < b ==> a.lt(b),
{
}

/// Rotating the chain never reuses a number already present: displacing the
/// file numbered `n` targets `n + 1`, which is strictly greater than `n` and
/// hence than every number in the chain `1 ..= n`; the live file always
/// targets 1.
pub proof fn lemma_count_rotation_fresh(n: usize)
    ensures
        count_rotation_target(Option::None) == 1,
        count_rotation_target(Option::Some(n)) == n + 1,
        count_rotation_target(Option::Some(n)) > n,
{
}

} // verus!
