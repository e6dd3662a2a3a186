//! Canonical type names: a qualified type path such as
//! `lib::Wrapper<lib::Inner>` becomes `Wrapper_Inner`.

use vstd::prelude::*;

verus! {

/// The part of a path after its last `::`, or the whole path if it has none.
pub open spec fn ident(s: Seq<char>) -> Seq<char>
    decreases s.len(),
{
    if s.len() < 2 {
        s
    } else if s[s.len() - 2] == ':' && s[s.len() - 1] == ':' {
        Seq::empty()
    } else {
        ident(s.drop_last()).push(s.last())
    }
}

/// The position of the first `c` in `s`.
pub open spec fn first_pos(s: Seq<char>, c: char) -> Option<int>
    decreases s.len(),
{
    if s.len() == 0 {
        None
    } else {
        match first_pos(s.drop_last(), c) {
            Some(k) => Some(k),
            None => if s.last() == c {
                Some(s.len() - 1)
            } else {
                None
            },
        }
    }
}

/// `s` without its trailing `>` characters.
pub open spec fn trim_closing(s: Seq<char>) -> Seq<char>
    decreases s.len(),
{
    if s.len() > 0 && s.last() == '>' {
        trim_closing(s.drop_last())
    } else {
        s
    }
}

/// `s` without its leading spaces.
pub open spec fn skip_spaces(s: Seq<char>) -> Seq<char>
    decreases s.len(),
{
    if s.len() > 0 && s[0] == ' ' {
        skip_spaces(s.drop_first())
    } else {
        s
    }
}

/// The pieces of `s` between commas; a text without commas is one piece.
pub open spec fn split_commas(s: Seq<char>) -> Seq<Seq<char>>
    decreases s.len(),
{
    if s.len() == 0 {
        seq![Seq::empty()]
    } else {
        let parts = split_commas(s.drop_last());
        if s.last() == ',' {
            parts.push(Seq::empty())
        } else {
            parts.update(parts.len() - 1, parts.last().push(s.last()))
        }
    }
}

/// The unqualified name of one generic argument.
pub open spec fn arg_ident(a: Seq<char>) -> Seq<char> {
    ident(skip_spaces(a))
}

/// Each argument's unqualified name, each preceded by `_`, in order.
pub open spec fn joined_args(parts: Seq<Seq<char>>) -> Seq<char>
    decreases parts.len(),
{
    if parts.len() == 0 {
        Seq::empty()
    } else {
        joined_args(parts.drop_last()) + seq!['_'] + arg_ident(parts.last())
    }
}

/// The canonical name of the type with qualified path `path`: the
/// unqualified base name, followed, for a generic type, by `_` and the
/// unqualified name of each argument in turn.
pub open spec fn spec_canonical_name(path: Seq<char>) -> Seq<char> {
    match first_pos(path, '<') {
        None => ident(path),
        Some(k) => ident(path.take(k)) + joined_args(
            split_commas(trim_closing(path.skip(k + 1))),
        ),
    }
}

/// Start of the unqualified part of `s[lo..hi]`.
fn ident_start(s: &str, lo: usize, hi: usize) -> (r: usize)
    requires
        lo <= hi <= s@.len(),
    ensures
        lo <= r <= hi,
        s@.subrange(r as int, hi as int) == ident(s@.subrange(lo as int, hi as int)),
{
    let mut j: usize = hi;
    while j - lo >= 2 && !(s.get_char(j - 2) == ':' && s.get_char(j - 1) == ':')
        invariant
            lo <= j <= hi <= s@.len(),
            ident(s@.subrange(lo as int, hi as int)) == ident(s@.subrange(lo as int, j as int))
                + s@.subrange(j as int, hi as int),
        decreases j,
    {
        let ghost t = s@.subrange(lo as int, j as int);
        assert(t.drop_last() =~= s@.subrange(lo as int, j - 1));
        assert(ident(t.drop_last()).push(t.last()) + s@.subrange(j as int, hi as int)
            =~= ident(t.drop_last()) + s@.subrange(j - 1, hi as int));
        j = j - 1;
    }
    if j - lo >= 2 {
        assert(ident(s@.subrange(lo as int, j as int)) =~= Seq::<char>::empty());
        assert(s@.subrange(j as int, hi as int) =~= Seq::<char>::empty() + s@.subrange(
            j as int,
            hi as int,
        ));
        j
    } else {
        assert(s@.subrange(lo as int, j as int) + s@.subrange(j as int, hi as int)
            =~= s@.subrange(lo as int, hi as int));
        lo
    }
}

/// A text without `c` has no first `c`.
proof fn lemma_first_pos_absent(s: Seq<char>, c: char)
    requires
        !s.contains(c),
    ensures
        first_pos(s, c) is None,
    decreases s.len(),
{
    if s.len() > 0 {
        assert forall|k: int| 0 <= k < s.drop_last().len() implies s.drop_last()[k] != c by {
            assert(s[k] != c);
        }
        assert(s[s.len() - 1] != c);
        lemma_first_pos_absent(s.drop_last(), c);
    }
}

/// A text without commas splits into itself alone.
proof fn lemma_split_no_commas(s: Seq<char>)
    requires
        !s.contains(','),
    ensures
        split_commas(s) == seq![s],
    decreases s.len(),
{
    if s.len() > 0 {
        assert forall|k: int| 0 <= k < s.drop_last().len() implies s.drop_last()[k] != ',' by {
            assert(s[k] != ',');
        }
        assert(s[s.len() - 1] != ',');
        lemma_split_no_commas(s.drop_last());
        assert(s.drop_last().push(s.last()) =~= s);
        assert(split_commas(s) =~= seq![s]);
    } else {
        assert(s =~= Seq::<char>::empty());
    }
}

/// The canonical name of a generic type `Wrapper<Inner>` is the unqualified
/// name of `Wrapper`, then `_`, then the unqualified name of `Inner`.
pub proof fn lemma_generic_name(base: Seq<char>, inner: Seq<char>)
    requires
        !base.contains('<'),
        !inner.contains('<'),
        !inner.contains('>'),
        !inner.contains(','),
        inner.len() == 0 || inner[0] != ' ',
    ensures
        spec_canonical_name(base + seq!['<'] + inner + seq!['>']) == ident(base) + seq!['_']
            + ident(inner),
{
    let path = base + seq!['<'] + inner + seq!['>'];
    let k = base.len() as int;
    lemma_first_pos_absent(base, '<');
    assert(path.take(k) =~= base);
    assert(path.take(k + 1).drop_last() =~= base);
    lemma_first_pos_extends(path, '<', k + 1);
    let rest = path.skip(k + 1);
    assert(rest =~= inner.push('>'));
    assert(rest.drop_last() =~= inner);
    assert(rest.last() == '>');
    assert(trim_closing(rest) == trim_closing(inner));
    if inner.len() > 0 {
        assert(inner[inner.len() - 1] != '>');
    }
    assert(trim_closing(inner) == inner);
    lemma_split_no_commas(inner);
    assert(seq![inner].drop_last() =~= Seq::<Seq<char>>::empty());
    assert(skip_spaces(inner) == inner);
    assert(seq![inner].last() == inner);
    assert(arg_ident(inner) == ident(inner));
    assert(joined_args(seq![inner]) == joined_args(Seq::<Seq<char>>::empty()) + seq!['_']
        + ident(inner));
    assert(joined_args(seq![inner]) =~= seq!['_'] + ident(inner));
}

/// Start of `s[lo..hi]` without its leading spaces.
fn spaces_end(s: &str, lo: usize, hi: usize) -> (r: usize)
    requires
        lo <= hi <= s@.len(),
    ensures
        lo <= r <= hi,
        s@.subrange(r as int, hi as int) == skip_spaces(s@.subrange(lo as int, hi as int)),
{
    let mut k: usize = lo;
    while k < hi && s.get_char(k) == ' '
        invariant
            lo <= k <= hi <= s@.len(),
            skip_spaces(s@.subrange(lo as int, hi as int)) == skip_spaces(
                s@.subrange(k as int, hi as int),
            ),
        decreases hi - k,
    {
        assert(s@.subrange(k as int, hi as int).drop_first() =~= s@.subrange(k + 1, hi as int));
        k = k + 1;
    }
    k
}

/// Position of the first `c` in `s`, or the length of `s`.
fn find_char(s: &str, c: char) -> (r: usize)
    ensures
        r <= s@.len(),
        first_pos(s@, c) == (if r < s@.len() {
            Some(r as int)
        } else {
            None::<int>
        }),
{
    let n = s.unicode_len();
    let mut i: usize = 0;
    while i < n
        invariant
            n == s@.len(),
            i <= n,
            first_pos(s@.take(i as int), c) is None,
        decreases n - i,
    {
        assert(s@.take(i as int + 1).drop_last() =~= s@.take(i as int));
        if s.get_char(i) == c {
            proof { lemma_first_pos_extends(s@, c, i as int + 1); }
            return i;
        }
        i = i + 1;
    }
    assert(s@.take(n as int) =~= s@);
    n
}

/// A `c` found in a prefix is the first `c` of the whole text.
proof fn lemma_first_pos_extends(s: Seq<char>, c: char, k: int)
    requires
        0 <= k <= s.len(),
        first_pos(s.take(k), c) is Some,
    ensures
        first_pos(s, c) == first_pos(s.take(k), c),
    decreases s.len() - k,
{
    if k < s.len() {
        assert(s.take(k + 1).drop_last() =~= s.take(k));
        lemma_first_pos_extends(s, c, k + 1);
    } else {
        assert(s.take(k) =~= s);
    }
}

/// Derives the canonical name of a type from its qualified path: namespace
/// qualification is stripped from the base name and from each generic
/// argument, and the argument names follow the base name, each after `_`.
pub fn canonical_name(path: &str) -> (r: String)
    ensures
        r@ == spec_canonical_name(path@),
{
    proof {
        reveal_strlit("_");
    }
    let n = path.unicode_len();
    let lt = find_char(path, '<');
    let b = ident_start(path, 0, lt);
    assert(path@.subrange(0, lt as int) =~= path@.take(lt as int));
    let mut out = String::from_str(path.substring_char(b, lt));
    if lt == n {
        assert(path@.take(n as int) =~= path@);
        return out;
    }
    let lo = lt + 1;
    let mut hi = n;
    assert(path@.subrange(lo as int, n as int) =~= path@.skip(lo as int));
    while hi > lo && path.get_char(hi - 1) == '>'
        invariant
            lo <= hi <= n == path@.len(),
            trim_closing(path@.skip(lo as int)) == trim_closing(
                path@.subrange(lo as int, hi as int),
            ),
        decreases hi,
    {
        assert(path@.subrange(lo as int, hi as int).drop_last() =~= path@.subrange(
            lo as int,
            hi - 1,
        ));
        hi = hi - 1;
    }
    let ghost g = path@.subrange(lo as int, hi as int);
    let ghost base = ident(path@.take(lt as int));
    let ghost done: Seq<Seq<char>> = Seq::empty();
    let mut start: usize = lo;
    let mut i: usize = lo;
    assert(g.take(0) =~= Seq::<char>::empty());
    assert(path@.subrange(lo as int, lo as int) =~= Seq::<char>::empty());
    assert(split_commas(g.take(0)) =~= done.push(path@.subrange(start as int, i as int)));
    assert(out@ =~= base + joined_args(done));
    while i < hi
        invariant
            lo <= start <= i <= hi <= n == path@.len(),
            g == path@.subrange(lo as int, hi as int),
            split_commas(g.take(i - lo)) == done.push(path@.subrange(start as int, i as int)),
            out@ == base + joined_args(done),
        decreases hi - i,
    {
        let ghost parts = split_commas(g.take(i - lo));
        assert(g.take(i + 1 - lo).drop_last() =~= g.take(i - lo));
        assert(g.take(i + 1 - lo).last() == path@[i as int]);
        if path.get_char(i) == ',' {
            let a = spaces_end(path, start, i);
            let e = ident_start(path, a, i);
            out.append("_");
            out.append(path.substring_char(e, i));
            proof {
                reveal_strlit("_");
                let arg = path@.subrange(start as int, i as int);
                assert(done.push(arg).drop_last() =~= done);
                assert(out@ =~= base + joined_args(done.push(arg)));
                done = done.push(arg);
                assert(path@.subrange(i + 1, i + 1) =~= Seq::<char>::empty());
                assert(split_commas(g.take(i + 1 - lo)) =~= done.push(
                    path@.subrange(i + 1, i + 1),
                ));
            }
            start = i + 1;
        } else {
            assert(path@.subrange(start as int, i as int).push(path@[i as int])
                =~= path@.subrange(start as int, i + 1));
            assert(split_commas(g.take(i + 1 - lo)) =~= done.push(
                path@.subrange(start as int, i + 1),
            ));
        }
        i = i + 1;
    }
    let a = spaces_end(path, start, hi);
    let e = ident_start(path, a, hi);
    out.append("_");
    out.append(path.substring_char(e, hi));
    proof {
        let arg = path@.subrange(start as int, hi as int);
        assert(g.take(hi - lo) =~= g);
        assert(done.push(arg).drop_last() =~= done);
        assert(out@ =~= base + joined_args(done.push(arg)));
    }
    out
}

} // verus!
