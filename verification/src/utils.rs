use vstd::prelude::*;
use vstd::string::StrSliceExecFns;
use vstd::string::StringExecFns;

use sugar_path::SugarPath;

verus! {

/// The index of the last occurrence of `c` in `s`, or `-1` when `s` does
/// not contain `c`.
pub open spec fn last_pos(s: Seq<char>, c: char) -> int
    decreases s.len(),
{
    if s.len() == 0 {
        -1
    } else if s.last() == c {
        s.len() - 1
    } else {
        last_pos(s.drop_last(), c)
    }
}

/// What `last_pos` finds: a position of `c` after which no `c` follows,
/// or `-1` exactly when `s` has no `c` at all.
pub proof fn lemma_last_pos(s: Seq<char>, c: char)
    ensures
        -1 <= last_pos(s, c) < s.len(),
        last_pos(s, c) >= 0 ==> s[last_pos(s, c)] == c,
        forall|j: int| last_pos(s, c) < j < s.len() ==> s[j] != c,
    decreases s.len(),
{
    if s.len() == 0 {
    } else if s.last() == c {
    } else {
        lemma_last_pos(s.drop_last(), c);
        assert forall|j: int| last_pos(s, c) < j < s.len() implies s[j] != c by {
            if j < s.len() - 1 {
                assert(s.drop_last()[j] == s[j]);
            }
        }
    }
}

/// The last `/`-separated component of a path; the whole path when it has
/// no `/`.
pub open spec fn last_component(s: Seq<char>) -> Seq<char> {
    let p = last_pos(s, '/');
    s.subrange(p + 1, s.len() as int)
}

/// The extension of a single path component: what follows its last `.`,
/// provided that `.` is not the component's first character. Empty when
/// there is none.
pub open spec fn ext_of_component(comp: Seq<char>) -> Seq<char> {
    let d = last_pos(comp, '.');
    if d >= 1 {
        comp.subrange(d + 1, comp.len() as int)
    } else {
        Seq::empty()
    }
}

/// The directory part of a path: everything before the last `/`, or empty
/// when the path has no `/`.
pub open spec fn dir_of(s: Seq<char>) -> Seq<char> {
    let p = last_pos(s, '/');
    if p >= 0 {
        s.subrange(0, p)
    } else {
        Seq::empty()
    }
}

/// A root-relative path join: an absolute specifier stands alone, an empty
/// root adds nothing, and otherwise exactly one `/` separates the two.
pub open spec fn join_path(root: Seq<char>, specifier: Seq<char>) -> Seq<char> {
    if specifier.len() > 0 && specifier[0] == '/' {
        specifier
    } else if root.len() == 0 {
        specifier
    } else if root.last() == '/' {
        root + specifier
    } else {
        root + seq!['/'] + specifier
    }
}

/// The views of a vector of strings.
pub open spec fn str_views(r: Seq<String>) -> Seq<Seq<char>> {
    r.map_values(|s: String| s@)
}

/// Whether some string of `v` has the contents `s`.
pub fn contains_str(v: &Vec<String>, s: &str) -> (r: bool)
    ensures
        r == str_views(v@).contains(s@),
{
    let n = v.len();
    let mut i: usize = 0;
    while i < n
        invariant
            n == v@.len(),
            i <= n,
            forall|j: int| 0 <= j < i ==> str_views(v@)[j] != s@,
        decreases n - i,
    {
        if crate::str_eq(v[i].as_str(), s) {
            proof {
                assert(str_views(v@)[i as int] == s@);
            }
            return true;
        }
        i = i + 1;
    }
    proof {
        if str_views(v@).contains(s@) {
            let j = choose|j: int| 0 <= j < str_views(v@).len() && str_views(v@)[j] == s@;
            assert(str_views(v@)[j] != s@);
        }
    }
    false
}

/// The index of the last occurrence of `c` in `s`, if any.
pub fn find_last(s: &str, c: char) -> (r: Option<usize>)
    ensures
        match r {
            Some(i) => last_pos(s@, c) == i as int,
            None => last_pos(s@, c) == -1,
        },
{
    let n = s.unicode_len();
    let mut best: Option<usize> = None;
    let mut i: usize = 0;
    while i < n
        invariant
            n == s@.len(),
            i <= n,
            match best {
                Some(b) => b < i && last_pos(s@.take(i as int), c) == b as int,
                None => last_pos(s@.take(i as int), c) == -1,
            },
        decreases n - i,
    {
        let ch = s.get_char(i);
        proof {
            assert(s@.take(i + 1 as int).drop_last() =~= s@.take(i as int));
            assert(s@.take(i + 1 as int).last() == s@[i as int]);
        }
        if ch == c {
            best = Some(i);
        }
        i = i + 1;
    }
    proof {
        assert(s@.take(n as int) =~= s@);
    }
    best
}

/// The file extension of a path: the extension of its last component.
pub fn extension_of(uri: &str) -> (r: String)
    ensures
        r@ == ext_of_component(last_component(uri@)),
{
    let n = uri.unicode_len();
    let comp: &str = match find_last(uri, '/') {
        Some(i) => {
            proof {
                lemma_last_pos(uri@, '/');
            }
            uri.substring_char(i + 1, n)
        },
        None => uri,
    };
    proof {
        assert(comp@ =~= last_component(uri@));
    }
    let m = comp.unicode_len();
    match find_last(comp, '.') {
        Some(d) => {
            if d >= 1 {
                proof {
                    lemma_last_pos(comp@, '.');
                }
                let ext = comp.substring_char(d + 1, m);
                ext.to_owned()
            } else {
                String::new()
            }
        },
        None => String::new(),
    }
}

/// The directory part of a path, as `dir_of` states it.
pub fn dirname_of(path: &str) -> (r: String)
    ensures
        r@ == dir_of(path@),
{
    match find_last(path, '/') {
        Some(i) => {
            proof {
                lemma_last_pos(path@, '/');
            }
            path.substring_char(0, i).to_owned()
        },
        None => String::new(),
    }
}

/// The index of the first occurrence of `c` in `s`, or `-1` when `s` does
/// not contain `c`.
pub open spec fn first_pos(s: Seq<char>, c: char) -> int
    decreases s.len(),
{
    if s.len() == 0 {
        -1
    } else if s[0] == c {
        0
    } else if first_pos(s.drop_first(), c) == -1 {
        -1
    } else {
        1 + first_pos(s.drop_first(), c)
    }
}

/// What `first_pos` finds.
pub proof fn lemma_first_pos(s: Seq<char>, c: char)
    ensures
        -1 <= first_pos(s, c) < s.len(),
        first_pos(s, c) >= 0 ==> s[first_pos(s, c)] == c,
        forall|j: int| 0 <= j < first_pos(s, c) ==> s[j] != c,
        first_pos(s, c) == -1 ==> forall|j: int| 0 <= j < s.len() ==> s[j] != c,
    decreases s.len(),
{
    if s.len() == 0 {
    } else if s[0] == c {
    } else {
        lemma_first_pos(s.drop_first(), c);
        let fp = first_pos(s, c);
        let fpd = first_pos(s.drop_first(), c);
        assert forall|j: int| 0 <= j < fp implies s[j] != c by {
            if j > 0 {
                assert(s.drop_first()[j - 1] == s[j]);
                assert(j - 1 < fpd);
            }
        }
        if fp == -1 {
            assert forall|j: int| 0 <= j < s.len() implies s[j] != c by {
                if j > 0 {
                    assert(s.drop_first()[j - 1] == s[j]);
                }
            }
        }
    }
}

/// The `sep`-separated pieces of `s`, in order; separators vanish, empty
/// pieces stay.
pub open spec fn split_on(s: Seq<char>, sep: char) -> Seq<Seq<char>>
    decreases s.len(),
    via split_on_decreases
{
    let fp = first_pos(s, sep);
    if fp == -1 {
        seq![s]
    } else {
        seq![s.take(fp)] + split_on(s.skip(fp + 1), sep)
    }
}

#[via_fn]
proof fn split_on_decreases(s: Seq<char>, sep: char) {
    lemma_first_pos(s, sep);
}

/// A path component that survives flattening: not empty, not `.`, not
/// `..`.
pub open spec fn keep_component(c: Seq<char>) -> bool {
    c.len() > 0 && c != seq!['.'] && c != seq!['.', '.']
}

/// The components of `cs` that survive flattening, in order.
pub open spec fn kept_components(cs: Seq<Seq<char>>) -> Seq<Seq<char>>
    decreases cs.len(),
{
    if cs.len() == 0 {
        Seq::empty()
    } else {
        let rest = kept_components(cs.drop_last());
        if keep_component(cs.last()) {
            rest.push(cs.last())
        } else {
            rest
        }
    }
}

/// The components joined, each followed by one `_`.
pub open spec fn joined(cs: Seq<Seq<char>>) -> Seq<char>
    decreases cs.len(),
{
    if cs.len() == 0 {
        Seq::empty()
    } else {
        joined(cs.drop_last()) + cs.last() + seq!['_']
    }
}

/// A path flattened into an id: its extension is split off the last
/// component, every ordinary component is kept and followed by `_`, and
/// the extension closes the name.
pub open spec fn flat_name(rel: Seq<char>) -> Seq<char> {
    let comps_all = split_on(rel, '/');
    let lastc = comps_all.last();
    let d = last_pos(lastc, '.');
    let stem = if d >= 1 {
        lastc.subrange(0, d)
    } else {
        lastc
    };
    let ext = if d >= 1 {
        lastc.subrange(d + 1, lastc.len() as int)
    } else {
        Seq::<char>::empty()
    };
    joined(kept_components(comps_all.drop_last().push(stem))) + ext
}

/// A path is absolute when it starts with `/`.
pub open spec fn is_abs(s: Seq<char>) -> bool {
    s.len() > 0 && s[0] == '/'
}

/// Membership in a prefix is membership at an index below the cut.
pub proof fn lemma_take_contains(s: Seq<Seq<char>>, n: int, u: Seq<char>)
    requires
        0 <= n <= s.len(),
    ensures
        s.take(n).contains(u) <==> exists|w: int| 0 <= w < n && #[trigger] s[w] == u,
{
    if s.take(n).contains(u) {
        let w = choose|w: int| 0 <= w < s.take(n).len() && s.take(n)[w] == u;
        assert(s[w] == u);
    }
    if exists|w: int| 0 <= w < n && #[trigger] s[w] == u {
        let w = choose|w: int| 0 <= w < n && s[w] == u;
        assert(s.take(n)[w] == u);
    }
}

/// The index of the first occurrence of `c` in `s`, if any.
pub fn find_first(s: &str, c: char) -> (r: Option<usize>)
    ensures
        match r {
            Some(i) => first_pos(s@, c) == i as int,
            None => first_pos(s@, c) == -1,
        },
{
    let n = s.unicode_len();
    let mut i: usize = 0;
    while i < n
        invariant
            n == s@.len(),
            i <= n,
            forall|j: int| 0 <= j < i ==> s@[j] != c,
        decreases n - i,
    {
        if s.get_char(i) == c {
            proof {
                lemma_first_pos(s@, c);
                let fp = first_pos(s@, c);
                if fp < i as int {
                    assert(s@[fp] != c);
                }
            }
            return Some(i);
        }
        i = i + 1;
    }
    proof {
        lemma_first_pos(s@, c);
        let fp = first_pos(s@, c);
        if fp >= 0 {
            assert(s@[fp] != c);
        }
    }
    None
}

/// The `/`-separated components of a path.
pub fn split_components(s: &str) -> (r: Vec<String>)
    ensures
        str_views(r@) == split_on(s@, '/'),
        r@.len() >= 1,
    decreases s@.len(),
{
    let n = s.unicode_len();
    match find_first(s, '/') {
        None => {
            let mut v: Vec<String> = Vec::new();
            v.push(s.to_owned());
            proof {
                assert(str_views(v@) =~= seq![s@]);
            }
            v
        },
        Some(i) => {
            proof {
                lemma_first_pos(s@, '/');
            }
            let head = s.substring_char(0, i).to_owned();
            let tail = s.substring_char(i + 1, n);
            proof {
                assert(tail@ =~= s@.skip(i + 1));
                assert(head@ =~= s@.take(i as int));
            }
            let mut rest = split_components(tail);
            rest.insert(0, head);
            proof {
                assert(str_views(rest@) =~= seq![s@.take(i as int)] + split_on(
                    s@.skip(i + 1),
                    '/',
                ));
            }
            rest
        },
    }
}

/// Whether a single component survives flattening.
fn keep_component_exec(c: &str) -> (r: bool)
    ensures
        r == keep_component(c@),
{
    proof {
        reveal_strlit(".");
        reveal_strlit("..");
        assert((".")@ =~= seq!['.']);
        assert(("..")@ =~= seq!['.', '.']);
    }
    !c.is_empty() && !crate::str_eq(c, ".") && !crate::str_eq(c, "..")
}

/// A path flattened into an id, as `flat_name` states it.
pub fn flat_name_of(rel: &str) -> (r: String)
    ensures
        r@ == flat_name(rel@),
{
    let mut comps = split_components(rel);
    let ghost comps_all = split_on(rel@, '/');
    let last_idx = comps.len() - 1;
    let m = comps[last_idx].as_str().unicode_len();
    let ghost lastc = comps_all.last();
    proof {
        assert(str_views(comps@)[last_idx as int] == comps_all.last());
    }
    let mut ext: String = String::new();
    match find_last(comps[last_idx].as_str(), '.') {
        Some(d) => {
            if d >= 1 {
                proof {
                    lemma_last_pos(lastc, '.');
                }
                let stem = comps[last_idx].as_str().substring_char(0, d).to_owned();
                ext = comps[last_idx].as_str().substring_char(d + 1, m).to_owned();
                comps.pop();
                comps.push(stem);
            }
        },
        None => {
        },
    }
    let ghost comps2 = comps_all.drop_last().push(
        if last_pos(lastc, '.') >= 1 {
            lastc.subrange(0, last_pos(lastc, '.'))
        } else {
            lastc
        },
    );
    proof {
        assert(str_views(comps@) =~= comps2);
    }
    let n = comps.len();
    let mut acc = String::new();
    let mut i: usize = 0;
    while i < n
        invariant
            n == comps@.len(),
            n == comps2.len(),
            str_views(comps@) == comps2,
            i <= n,
            acc@ == joined(kept_components(comps2.take(i as int))),
        decreases n - i,
    {
        proof {
            assert(comps2.take(i + 1 as int).drop_last() =~= comps2.take(i as int));
            assert(comps2.take(i + 1 as int).last() == comps2[i as int]);
        }
        if keep_component_exec(comps[i].as_str()) {
            let ghost pre = kept_components(comps2.take(i as int));
            acc.append(comps[i].as_str());
            acc.append("_");
            proof {
                reveal_strlit("_");
                assert(("_")@ =~= seq!['_']);
                let kc = kept_components(comps2.take(i + 1 as int));
                assert(kc == pre.push(comps2[i as int]));
                assert(kc.drop_last() =~= pre);
                assert(kc.last() == comps2[i as int]);
                assert(acc@ =~= joined(kc.drop_last()) + kc.last() + seq!['_']);
            }
        }
        i = i + 1;
    }
    proof {
        assert(comps2.take(n as int) =~= comps2);
    }
    acc.append(ext.as_str());
    proof {
        if last_pos(lastc, '.') >= 1 {
            lemma_last_pos(lastc, '.');
            assert(ext@ =~= lastc.subrange(last_pos(lastc, '.') + 1, lastc.len() as int));
        }
    }
    acc
}

/// One decimal digit as a character.
pub open spec fn dec_digit(d: int) -> char {
    if d == 0 {
        '0'
    } else if d == 1 {
        '1'
    } else if d == 2 {
        '2'
    } else if d == 3 {
        '3'
    } else if d == 4 {
        '4'
    } else if d == 5 {
        '5'
    } else if d == 6 {
        '6'
    } else if d == 7 {
        '7'
    } else if d == 8 {
        '8'
    } else {
        '9'
    }
}

/// The decimal notation of a number.
pub open spec fn dec_str(n: nat) -> Seq<char>
    decreases n,
{
    if n < 10 {
        seq![dec_digit(n as int)]
    } else {
        dec_str(n / 10).push(dec_digit((n % 10) as int))
    }
}

/// One digit as a string.
fn digit_string(d: usize) -> (r: String)
    requires
        d < 10,
    ensures
        r@ == seq![dec_digit(d as int)],
{
    proof {
        reveal_strlit("0");
        reveal_strlit("1");
        reveal_strlit("2");
        reveal_strlit("3");
        reveal_strlit("4");
        reveal_strlit("5");
        reveal_strlit("6");
        reveal_strlit("7");
        reveal_strlit("8");
        reveal_strlit("9");
        assert(("0")@ =~= seq!['0']);
        assert(("1")@ =~= seq!['1']);
        assert(("2")@ =~= seq!['2']);
        assert(("3")@ =~= seq!['3']);
        assert(("4")@ =~= seq!['4']);
        assert(("5")@ =~= seq!['5']);
        assert(("6")@ =~= seq!['6']);
        assert(("7")@ =~= seq!['7']);
        assert(("8")@ =~= seq!['8']);
        assert(("9")@ =~= seq!['9']);
    }
    let r: &str = if d == 0 {
        "0"
    } else if d == 1 {
        "1"
    } else if d == 2 {
        "2"
    } else if d == 3 {
        "3"
    } else if d == 4 {
        "4"
    } else if d == 5 {
        "5"
    } else if d == 6 {
        "6"
    } else if d == 7 {
        "7"
    } else if d == 8 {
        "8"
    } else {
        "9"
    };
    r.to_owned()
}

/// A number written in decimal, as `dec_str` states it.
pub fn usize_to_string(n: usize) -> (r: String)
    ensures
        r@ == dec_str(n as nat),
    decreases n,
{
    if n < 10 {
        digit_string(n)
    } else {
        let mut s = usize_to_string(n / 10);
        let d = digit_string(n % 10);
        s.append(d.as_str());
        proof {
            assert(s@ =~= dec_str((n / 10) as nat).push(dec_digit((n % 10) as int)));
        }
        s
    }
}

/// The path of `path` relative to `root`, for two absolute paths; a name
/// for what sugar_path's `relative` computes.
pub uninterp spec fn relative_of(path: Seq<char>, root: Seq<char>) -> Seq<char>;

/// Relies on sugar_path's `relative`: for two absolute paths it computes
/// the relative path from the two arguments alone, without consulting the
/// process's working directory, and does not panic.
#[verifier::external_body]
fn relative_path(uri: &str, root: &str) -> (r: String)
    requires
        is_abs(uri@),
        is_abs(root@),
    ensures
        r@ == relative_of(uri@, root@),
{
    let rel = std::path::Path::new(uri).relative(root);
    rel.to_string_lossy().to_string()
}

/// The deterministic chunk id derived from a module's path: the flattened
/// path relative to the project root where both are absolute paths, the
/// flattened path itself otherwise.
pub open spec fn named_chunk_id(root: Seq<char>, uri: Seq<char>) -> Seq<char> {
    if is_abs(uri) && is_abs(root) {
        flat_name(relative_of(uri, root))
    } else {
        flat_name(uri)
    }
}

/// Whether a path is absolute.
pub fn is_absolute(s: &str) -> (r: bool)
    ensures
        r == is_abs(s@),
{
    s.unicode_len() > 0 && s.get_char(0) == '/'
}

/// The chunk id a module uri earns under the named id strategy, as
/// `named_chunk_id` states it.
pub fn ext_by_module_uri(root: &str, uri: &str) -> (r: String)
    ensures
        r@ == named_chunk_id(root@, uri@),
{
    if is_absolute(uri) && is_absolute(root) {
        let rel = relative_path(uri, root);
        flat_name_of(rel.as_str())
    } else {
        flat_name_of(uri)
    }
}

/// Joins a specifier onto a root path, as `join_path` states it.
pub fn path_join(root: &str, specifier: &str) -> (r: String)
    ensures
        r@ == join_path(root@, specifier@),
{
    let sn = specifier.unicode_len();
    if sn > 0 && specifier.get_char(0) == '/' {
        return specifier.to_owned();
    }
    let rn = root.unicode_len();
    if rn == 0 {
        return specifier.to_owned();
    }
    let mut out = root.to_owned();
    if out.as_str().get_char(rn - 1) != '/' {
        proof {
            reveal_strlit("/");
        }
        out.append("/");
        proof {
            assert(out@ =~= root@ + seq!['/']);
        }
    }
    out.append(specifier);
    out
}

} // verus!
