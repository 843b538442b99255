//! Plain string operations on path segments, each with its model over `Seq<char>`.
use std::collections::VecDeque;
use vstd::prelude::*;

verus! {

/// The characters of each string of a sequence.
pub open spec fn views(v: Seq<String>) -> Seq<Seq<char>> {
    v.map_values(|s: String| s@)
}

/// Index of the last `'.'` in `s`, or -1 when there is none.
pub open spec fn last_dot(s: Seq<char>) -> int
    decreases s.len(),
{
    if s.len() == 0 {
        -1
    } else if s.last() == '.' {
        s.len() - 1
    } else {
        last_dot(s.drop_last())
    }
}

/// A file name has an extension when its last dot is not its first character.
pub open spec fn has_extension(name: Seq<char>) -> bool {
    last_dot(name) > 0
}

/// The extension of a file name (the text after its last dot).
pub open spec fn extension_of(name: Seq<char>) -> Seq<char> {
    name.subrange(last_dot(name) + 1, name.len() as int)
}

/// The name with its extension and the dot before it removed.
pub open spec fn stem_of(name: Seq<char>) -> Seq<char> {
    if has_extension(name) {
        name.subrange(0, last_dot(name))
    } else {
        name
    }
}

/// The segments written one after another, with `sep` between neighbours.
pub open spec fn join_spec(parts: Seq<Seq<char>>, sep: Seq<char>) -> Seq<char>
    decreases parts.len(),
{
    if parts.len() == 0 {
        Seq::empty()
    } else if parts.len() == 1 {
        parts[0]
    } else {
        join_spec(parts.drop_last(), sep) + sep + parts.last()
    }
}

pub proof fn lemma_last_dot_bounds(s: Seq<char>)
    ensures
        -1 <= last_dot(s) < s.len(),
        last_dot(s) >= 0 ==> s[last_dot(s)] == '.',
        forall|j: int| last_dot(s) < j < s.len() ==> s[j] != '.',
    decreases s.len(),
{
    if s.len() > 0 && s.last() != '.' {
        lemma_last_dot_bounds(s.drop_last());
        assert forall|j: int| last_dot(s) < j < s.len() implies s[j] != '.' by {
            if j < s.len() - 1 {
                assert(s[j] == s.drop_last()[j]);
            }
        }
    }
}

/// Character-wise equality of two strings.
pub fn str_eq(a: &str, b: &str) -> (r: bool)
    ensures
        r == (a@ == b@),
{
    let n = a.unicode_len();
    if n != b.unicode_len() {
        return false;
    }
    let mut i: usize = 0;
    while i < n
        invariant
            n == a@.len(),
            n == b@.len(),
            i <= n,
            a@.subrange(0, i as int) == b@.subrange(0, i as int),
        decreases n - i,
    {
        if a.get_char(i) != b.get_char(i) {
            return false;
        }
        assert(a@.subrange(0, i + 1) == a@.subrange(0, i as int).push(a@[i as int]));
        assert(b@.subrange(0, i + 1) == b@.subrange(0, i as int).push(b@[i as int]));
        i = i + 1;
    }
    assert(a@ == a@.subrange(0, n as int));
    assert(b@ == b@.subrange(0, n as int));
    true
}

/// Position of the last dot of `s`, if it has one.
pub fn find_last_dot(s: &str) -> (r: Option<usize>)
    ensures
        match r {
            Some(i) => i as int == last_dot(s@),
            None => last_dot(s@) == -1,
        },
{
    let n = s.unicode_len();
    let mut i: usize = n;
    assert(s@.subrange(0, n as int) == s@);
    while i > 0
        invariant
            i <= n == s@.len(),
            last_dot(s@) == last_dot(s@.subrange(0, i as int)),
        decreases i,
    {
        let ghost prefix = s@.subrange(0, i as int);
        assert(prefix.drop_last() == s@.subrange(0, i - 1));
        if s.get_char(i - 1) == '.' {
            return Some(i - 1);
        }
        i = i - 1;
    }
    assert(s@.subrange(0, 0) == Seq::<char>::empty());
    None
}

/// `extension_of(name)` when `name` has one.
pub fn extension(name: &str) -> (r: Option<String>)
    ensures
        match r {
            Some(e) => has_extension(name@) && e@ == extension_of(name@),
            None => !has_extension(name@),
        },
{
    let n = name.unicode_len();
    match find_last_dot(name) {
        Some(d) => {
            if d == 0 {
                None
            } else {
                proof {
                    lemma_last_dot_bounds(name@);
                }
                let e = name.substring_char(d + 1, n);
                Some(String::from_str(e))
            }
        },
        None => None,
    }
}

/// The name without its extension.
pub fn stem(name: &str) -> (r: String)
    ensures
        r@ == stem_of(name@),
{
    match find_last_dot(name) {
        Some(d) => {
            if d == 0 {
                String::from_str(name)
            } else {
                proof {
                    lemma_last_dot_bounds(name@);
                }
                String::from_str(name.substring_char(0, d))
            }
        },
        None => String::from_str(name),
    }
}

/// Joins the segments with `sep` between neighbours.
pub fn join(parts: &Vec<String>, sep: &str) -> (r: String)
    ensures
        r@ == join_spec(views(parts@), sep@),
{
    let ghost vs = views(parts@);
    let mut out = String::new();
    let mut i: usize = 0;
    while i < parts.len()
        invariant
            i <= parts@.len(),
            vs == views(parts@),
            out@ == join_spec(vs.subrange(0, i as int), sep@),
        decreases parts@.len() - i,
    {
        let ghost before = vs.subrange(0, i as int);
        let ghost after = vs.subrange(0, i + 1);
        assert(after.drop_last() == before);
        if i > 0 {
            out.append(sep);
        }
        out.append(parts[i].as_str());
        i = i + 1;
    }
    assert(vs.subrange(0, parts@.len() as int) == vs);
    out
}


/// Each part written between `open` and `close`.
pub open spec fn wrapped(parts: Seq<Seq<char>>, open: Seq<char>, close: Seq<char>) -> Seq<Seq<char>> {
    parts.map_values(|p: Seq<char>| open + p + close)
}

/// Joins the segments of a path, each written between `open` and `close`,
/// with `sep` between neighbours.
pub fn join_wrapped(parts: &VecDeque<String>, open: &str, close: &str, sep: &str) -> (r: String)
    ensures
        r@ == join_spec(wrapped(views(parts@), open@, close@), sep@),
{
    let ghost vs = wrapped(views(parts@), open@, close@);
    let mut out = String::new();
    let mut i: usize = 0;
    while i < parts.len()
        invariant
            i <= parts@.len(),
            vs == wrapped(views(parts@), open@, close@),
            out@ == join_spec(vs.subrange(0, i as int), sep@),
        decreases parts@.len() - i,
    {
        let ghost before = vs.subrange(0, i as int);
        let ghost after = vs.subrange(0, i + 1);
        assert(after.drop_last() == before);
        if i > 0 {
            out.append(sep);
        }
        out.append(open);
        out.append(parts[i].as_str());
        out.append(close);
        assert(vs[i as int] == open@ + parts@[i as int]@ + close@);
        i = i + 1;
    }
    assert(vs.subrange(0, parts@.len() as int) == vs);
    out
}


/// Index of the last `c` in `s`, or -1 when there is none.
pub open spec fn last_of(s: Seq<char>, c: char) -> int
    decreases s.len(),
{
    if s.len() == 0 {
        -1
    } else if s.last() == c {
        s.len() - 1
    } else {
        last_of(s.drop_last(), c)
    }
}

/// The text after the last `c` of `s`, or all of `s` when it has none.
pub open spec fn after_last(s: Seq<char>, c: char) -> Seq<char> {
    s.subrange(last_of(s, c) + 1, s.len() as int)
}

/// The text after the last `c` of `s`.
pub fn text_after_last(s: &str, c: char) -> (r: String)
    ensures
        r@ == after_last(s@, c),
{
    let n = s.unicode_len();
    let mut i: usize = n;
    assert(s@.subrange(0, n as int) == s@);
    while i > 0
        invariant
            i <= n == s@.len(),
            last_of(s@, c) == last_of(s@.subrange(0, i as int), c),
        decreases i,
    {
        let ghost prefix = s@.subrange(0, i as int);
        assert(prefix.drop_last() == s@.subrange(0, i - 1));
        if s.get_char(i - 1) == c {
            return String::from_str(s.substring_char(i, n));
        }
        i = i - 1;
    }
    assert(s@.subrange(0, 0) == Seq::<char>::empty());
    String::from_str(s)
}

/// The pieces of `s` between the separators `::`, found left to right.
pub open spec fn split_colons(s: Seq<char>) -> Seq<Seq<char>>
    decreases s.len(),
{
    if s.len() < 2 {
        seq![s]
    } else if s[0] == ':' && s[1] == ':' {
        seq![Seq::<char>::empty()] + split_colons(s.subrange(2, s.len() as int))
    } else {
        let r = split_colons(s.subrange(1, s.len() as int));
        r.update(0, seq![s[0]] + r[0])
    }
}

pub proof fn lemma_split_nonempty(s: Seq<char>)
    ensures
        split_colons(s).len() >= 1,
    decreases s.len(),
{
    if s.len() >= 2 {
        if s[0] == ':' && s[1] == ':' {
            lemma_split_nonempty(s.subrange(2, s.len() as int));
        } else {
            lemma_split_nonempty(s.subrange(1, s.len() as int));
        }
    }
}

/// Splits `s` at each separator `::`, left to right.
pub fn split_path(s: &str) -> (r: Vec<String>)
    ensures
        views(r@) == split_colons(s@),
{
    let n = s.unicode_len();
    let mut done: Vec<String> = Vec::new();
    let mut cur = String::new();
    let mut i: usize = 0;
    proof {
        lemma_split_nonempty(s@);
        assert(s@.subrange(0, n as int) == s@);
        let r = split_colons(s@);
        assert(r.update(0, cur@ + r[0]) =~= r);
    }
    while n > 0 && i < n - 1
        invariant
            n == s@.len(),
            i <= n,
            split_colons(s@) == views(done@) + {
                let r = split_colons(s@.subrange(i as int, n as int));
                r.update(0, cur@ + r[0])
            },
        decreases n - i,
    {
        let ghost rest = s@.subrange(i as int, n as int);
        proof {
            lemma_split_nonempty(rest);
        }
        if s.get_char(i) == ':' && s.get_char(i + 1) == ':' {
            proof {
                let tail = s@.subrange(i + 2, n as int);
                assert(rest.subrange(2, rest.len() as int) == tail);
                lemma_split_nonempty(tail);
                let rt = split_colons(tail);
                assert(split_colons(rest) == seq![Seq::<char>::empty()] + rt);
                assert(split_colons(rest).update(0, cur@ + split_colons(rest)[0]) =~= seq![cur@] + rt.update(0, Seq::<char>::empty() + rt[0]));
                assert(rt.update(0, Seq::<char>::empty() + rt[0]) =~= rt);
            }
            let ghost old_done = views(done@);
            let piece = cur;
            done.push(piece);
            cur = String::new();
            proof {
                assert(views(done@) =~= old_done.push(piece@));
                let rt = split_colons(s@.subrange(i + 2, n as int));
                assert(rt.update(0, cur@ + rt[0]) =~= rt);
                assert(old_done + (seq![piece@] + rt) =~= views(done@) + rt);
            }
            i = i + 2;
        } else {
            let ch = s.get_char(i);
            proof {
                let tail = s@.subrange(i + 1, n as int);
                assert(rest.subrange(1, rest.len() as int) == tail);
                lemma_split_nonempty(tail);
                let rt = split_colons(tail);
                assert(rest[0] == ch);
                assert(split_colons(rest) == rt.update(0, seq![ch] + rt[0]));
                assert(cur@ + (seq![ch] + rt[0]) =~= cur@.push(ch) + rt[0]);
                assert(split_colons(rest).update(0, cur@ + split_colons(rest)[0]) =~= rt.update(0, cur@.push(ch) + rt[0]));
            }
            let ghost old_cur = cur@;
            cur.append(s.substring_char(i, i + 1));
            assert(s@.subrange(i as int, i + 1) =~= seq![ch]);
            assert(cur@ == old_cur.push(ch));
            i = i + 1;
        }
    }
    proof {
        let rest = s@.subrange(i as int, n as int);
        assert(split_colons(rest) == seq![rest]);
    }
    let ghost old_done = views(done@);
    cur.append(s.substring_char(i, n));
    done.push(cur);
    assert(views(done@) =~= split_colons(s@));
    done
}

} // verus!
