use vstd::prelude::*;
use vstd::std_specs::iter::IteratorSpec;
use vstd::string::*;

verus! {

/// `str::eq` holds exactly when the two strings have the same characters.
pub assume_specification[ <str as PartialEq>::eq ](a: &str, b: &str) -> (r: bool)
    ensures
        r == (a@ == b@),
;

/// `String::push` appends the character to the string.
pub assume_specification[ String::push ](s: &mut String, c: char)
    ensures
        final(s)@ == old(s)@.push(c),
;

// ---------------------------------------------------------------------------
// Searching
// ---------------------------------------------------------------------------
/// No element of `s` equals `a`.
pub open spec fn lacks<A>(s: Seq<A>, a: A) -> bool {
    forall|i: int| 0 <= i < s.len() ==> s[i] != a
}

/// Index of the first element equal to `a`, or `s.len()` if there is none.
pub open spec fn first_index<A>(s: Seq<A>, a: A) -> int
    decreases s.len(),
{
    if s.len() == 0 {
        0
    } else if s[0] == a {
        0
    } else {
        1 + first_index(s.drop_first(), a)
    }
}

/// Index of the last element equal to `a`, or `-1` if there is none.
pub open spec fn last_index<A>(s: Seq<A>, a: A) -> int
    decreases s.len(),
{
    if s.len() == 0 {
        -1
    } else if s.last() == a {
        s.len() - 1
    } else {
        last_index(s.drop_last(), a)
    }
}

/// Index of the first place where `a` is directly followed by `b`, or
/// `s.len()` if there is none.
pub open spec fn find_pair<A>(s: Seq<A>, a: A, b: A) -> int
    decreases s.len(),
{
    if s.len() < 2 {
        s.len() as int
    } else if s[0] == a && s[1] == b {
        0
    } else {
        1 + find_pair(s.drop_first(), a, b)
    }
}

/// Nowhere in `s` is `a` directly followed by `b`.
pub open spec fn no_pair<A>(s: Seq<A>, a: A, b: A) -> bool {
    forall|i: int| 0 <= i && i + 1 < s.len() ==> !(s[i] == a && #[trigger] s[i + 1] == b)
}

/// Number of leading elements equal to `a`.
pub open spec fn leading<A>(s: Seq<A>, a: A) -> int
    decreases s.len(),
{
    if s.len() > 0 && s[0] == a {
        1 + leading(s.drop_first(), a)
    } else {
        0
    }
}

/// `s` without its leading elements equal to `a`.
pub open spec fn trim_start<A>(s: Seq<A>, a: A) -> Seq<A> {
    s.skip(leading(s, a))
}

/// What the first index is: it lies within the sequence or at its end,
/// nothing before it equals `a`, and the element at it does.
pub proof fn lemma_first_index<A>(s: Seq<A>, a: A)
    ensures
        0 <= first_index(s, a) <= s.len(),
        forall|j: int| 0 <= j < first_index(s, a) ==> s[j] != a,
        first_index(s, a) < s.len() ==> s[first_index(s, a)] == a,
        first_index(s, a) == s.len() <==> lacks(s, a),
    decreases s.len(),
{
    if s.len() > 0 && s[0] != a {
        let t = s.drop_first();
        lemma_first_index(t, a);
        let r = first_index(t, a);
        assert forall|j: int| 0 <= j < 1 + r implies s[j] != a by {
            if j > 0 {
                assert(s[j] == t[j - 1]);
            }
        }
        if r < t.len() {
            assert(s[1 + r] == t[r]);
        }
    }
}

/// An index with nothing equal to `a` before it, which holds `a` or is
/// the end of the sequence, is the first index of `a`.
pub proof fn lemma_first_index_is<A>(s: Seq<A>, a: A, i: int)
    requires
        0 <= i <= s.len(),
        forall|j: int| 0 <= j < i ==> s[j] != a,
        i < s.len() ==> s[i] == a,
    ensures
        first_index(s, a) == i,
    decreases s.len(),
{
    if s.len() > 0 && i > 0 {
        let t = s.drop_first();
        assert(s[0] != a);
        assert forall|j: int| 0 <= j < i - 1 implies t[j] != a by {
            assert(t[j] == s[j + 1]);
        }
        if i < s.len() {
            assert(t[i - 1] == s[i]);
        }
        lemma_first_index_is(t, a, i - 1);
    }
}

/// What the last index is: it lies within the sequence or is `-1`,
/// nothing behind it equals `a`, and the element at it does.
pub proof fn lemma_last_index<A>(s: Seq<A>, a: A)
    ensures
        -1 <= last_index(s, a) < s.len(),
        forall|j: int| last_index(s, a) < j < s.len() ==> s[j] != a,
        last_index(s, a) >= 0 ==> s[last_index(s, a)] == a,
        last_index(s, a) == -1 <==> lacks(s, a),
    decreases s.len(),
{
    if s.len() > 0 && s.last() != a {
        let t = s.drop_last();
        lemma_last_index(t, a);
        let r = last_index(t, a);
        assert forall|j: int| r < j < s.len() implies s[j] != a by {
            if j < t.len() {
                assert(s[j] == t[j]);
            }
        }
        if r >= 0 {
            assert(s[r] == t[r]);
        }
        if lacks(s, a) {
            assert forall|j: int| 0 <= j < t.len() implies t[j] != a by {
                assert(t[j] == s[j]);
            }
        }
    }
}

/// An index with nothing equal to `a` behind it, which holds `a` or is
/// `-1`, is the last index of `a`.
pub proof fn lemma_last_index_is<A>(s: Seq<A>, a: A, i: int)
    requires
        -1 <= i < s.len(),
        forall|j: int| i < j < s.len() ==> s[j] != a,
        i >= 0 ==> s[i] == a,
    ensures
        last_index(s, a) == i,
    decreases s.len(),
{
    if s.len() > 0 && i < s.len() - 1 {
        let t = s.drop_last();
        assert(s.last() != a);
        assert forall|j: int| i < j < t.len() implies t[j] != a by {
            assert(t[j] == s[j]);
        }
        if i >= 0 {
            assert(t[i] == s[i]);
        }
        lemma_last_index_is(t, a, i);
    }
}

/// What the index of the first pair is: no pair begins before it, and
/// one begins at it unless it is the end of the sequence.
pub proof fn lemma_find_pair<A>(s: Seq<A>, a: A, b: A)
    ensures
        0 <= find_pair(s, a, b) <= s.len(),
        forall|j: int|
            0 <= j < find_pair(s, a, b) && j + 1 < s.len() ==> !(s[j] == a && #[trigger] s[j + 1]
                == b),
        find_pair(s, a, b) < s.len() ==> find_pair(s, a, b) + 1 < s.len() && s[find_pair(s, a, b)]
            == a && s[find_pair(s, a, b) + 1] == b,
    decreases s.len(),
{
    if s.len() >= 2 && !(s[0] == a && s[1] == b) {
        let t = s.drop_first();
        lemma_find_pair(t, a, b);
        let r = find_pair(t, a, b);
        assert forall|j: int| 0 <= j < 1 + r && j + 1 < s.len() implies !(s[j] == a
            && #[trigger] s[j + 1] == b) by {
            if j > 0 {
                assert(s[j] == t[j - 1]);
                assert(s[j + 1] == t[j - 1 + 1]);
            }
        }
        if r < t.len() {
            assert(s[1 + r] == t[r]);
            assert(s[1 + r + 1] == t[r + 1]);
        }
    }
}

/// An index before which no pair begins, at which one begins or which is
/// the end of the sequence, is the index of the first pair.
pub proof fn lemma_find_pair_is<A>(s: Seq<A>, a: A, b: A, i: int)
    requires
        0 <= i <= s.len(),
        forall|j: int| 0 <= j < i && j + 1 < s.len() ==> !(s[j] == a && #[trigger] s[j + 1] == b),
        i < s.len() ==> i + 1 < s.len() && s[i] == a && s[i + 1] == b,
    ensures
        find_pair(s, a, b) == i,
    decreases s.len(),
{
    if s.len() >= 2 && i > 0 {
        let t = s.drop_first();
        assert(s[0int + 1] == s[1]);
        assert(!(s[0] == a && s[1] == b));
        assert forall|j: int| 0 <= j < i - 1 && j + 1 < t.len() implies !(t[j] == a
            && #[trigger] t[j + 1] == b) by {
            assert(t[j] == s[j + 1]);
            assert(t[j + 1] == s[j + 1 + 1]);
        }
        if i < s.len() {
            assert(t[i - 1] == s[i]);
            assert(t[i - 1 + 1] == s[i + 1]);
        }
        lemma_find_pair_is(t, a, b, i - 1);
    } else if s.len() >= 2 {
        assert(i == 0);
    } else if s.len() == 1 {
        if i == 0 {
            assert(false);
        }
    }
}

/// An index before which everything equals `a`, and at which something
/// else stands or the sequence ends, is the number of leading `a`.
pub proof fn lemma_leading_is<A>(s: Seq<A>, a: A, i: int)
    requires
        0 <= i <= s.len(),
        forall|j: int| 0 <= j < i ==> s[j] == a,
        i < s.len() ==> s[i] != a,
    ensures
        leading(s, a) == i,
    decreases s.len(),
{
    if s.len() > 0 && i > 0 {
        let t = s.drop_first();
        assert(s[0] == a);
        assert forall|j: int| 0 <= j < i - 1 implies t[j] == a by {
            assert(t[j] == s[j + 1]);
        }
        if i < s.len() {
            assert(t[i - 1] == s[i]);
        }
        lemma_leading_is(t, a, i - 1);
    }
}

// ---------------------------------------------------------------------------
// Splitting and joining
// ---------------------------------------------------------------------------
/// The pieces of `s` between the occurrences of `sep`. There is always at
/// least one piece; pieces may be empty.
pub open spec fn split<A>(s: Seq<A>, sep: A) -> Seq<Seq<A>>
    decreases s.len(),
{
    let i = first_index(s, sep);
    if 0 <= i < s.len() {
        seq![s.take(i)] + split(s.skip(i + 1), sep)
    } else {
        seq![s]
    }
}

/// The pieces put together again, with `sep` between neighbours.
pub open spec fn join<A>(parts: Seq<Seq<A>>, sep: A) -> Seq<A>
    decreases parts.len(),
{
    if parts.len() == 0 {
        Seq::empty()
    } else if parts.len() == 1 {
        parts[0]
    } else {
        parts[0] + seq![sep] + join(parts.drop_first(), sep)
    }
}

/// The pieces that are not empty, in order.
pub open spec fn drop_empty<A>(parts: Seq<Seq<A>>) -> Seq<Seq<A>>
    decreases parts.len(),
{
    if parts.len() == 0 {
        Seq::empty()
    } else if parts.last().len() == 0 {
        drop_empty(parts.drop_last())
    } else {
        drop_empty(parts.drop_last()).push(parts.last())
    }
}

/// Every piece lacks `a`.
pub open spec fn all_lack<A>(parts: Seq<Seq<A>>, a: A) -> bool {
    forall|k: int| 0 <= k < parts.len() ==> lacks(#[trigger] parts[k], a)
}

/// Every piece is non-empty.
pub open spec fn all_nonempty<A>(parts: Seq<Seq<A>>) -> bool {
    forall|k: int| 0 <= k < parts.len() ==> (#[trigger] parts[k]).len() > 0
}

/// No piece begins with `a`.
pub open spec fn none_starts_with<A>(parts: Seq<Seq<A>>, a: A) -> bool {
    forall|k: int| 0 <= k < parts.len() && (#[trigger] parts[k]).len() > 0 ==> parts[k][0] != a
}

/// A split has at least one piece, no piece holds the separator, and the
/// first piece is the text before the first separator.
pub proof fn lemma_split<A>(s: Seq<A>, sep: A)
    ensures
        split(s, sep).len() >= 1,
        all_lack(split(s, sep), sep),
        split(s, sep)[0] == s.take(first_index(s, sep)),
    decreases s.len(),
{
    let i = first_index(s, sep);
    lemma_first_index(s, sep);
    if 0 <= i < s.len() {
        let rest = split(s.skip(i + 1), sep);
        lemma_split(s.skip(i + 1), sep);
        let all = seq![s.take(i)] + rest;
        assert forall|k: int| 0 <= k < all.len() implies lacks(#[trigger] all[k], sep) by {
            if k > 0 {
                assert(all[k] == rest[k - 1]);
            }
        }
    } else {
        assert(s.take(i) =~= s);
    }
}

/// The pieces of a text lack whatever the text lacks.
pub proof fn lemma_split_lacks<A>(s: Seq<A>, sep: A, a: A)
    requires
        lacks(s, a),
    ensures
        all_lack(split(s, sep), a),
    decreases s.len(),
{
    let i = first_index(s, sep);
    lemma_first_index(s, sep);
    if 0 <= i < s.len() {
        let t = s.skip(i + 1);
        let rest = split(t, sep);
        assert forall|j: int| 0 <= j < t.len() implies t[j] != a by {
            assert(t[j] == s[i + 1 + j]);
        }
        lemma_split_lacks(t, sep, a);
        let all = seq![s.take(i)] + rest;
        assert forall|k: int| 0 <= k < all.len() implies lacks(#[trigger] all[k], a) by {
            if k > 0 {
                assert(all[k] == rest[k - 1]);
            } else {
                assert(all[0] == s.take(i));
                assert forall|j: int| 0 <= j < all[0].len() implies all[0][j] != a by {
                    assert(all[0][j] == s[j]);
                }
            }
        }
    }
}

/// In a text where `sep` is never directly followed by `b`, no piece after
/// the first begins with `b`.
pub proof fn lemma_split_starts<A>(s: Seq<A>, sep: A, b: A)
    requires
        no_pair(s, sep, b),
    ensures
        none_starts_with(split(s, sep).drop_first(), b),
    decreases s.len(),
{
    let i = first_index(s, sep);
    lemma_first_index(s, sep);
    lemma_split(s, sep);
    if 0 <= i < s.len() {
        let t = s.skip(i + 1);
        let rest = split(t, sep);
        assert forall|j: int| 0 <= j && j + 1 < t.len() implies !(t[j] == sep && #[trigger] t[j
            + 1] == b) by {
            assert(t[j] == s[i + 1 + j]);
            assert(t[j + 1] == s[i + 1 + j + 1]);
        }
        lemma_split_starts(t, sep, b);
        lemma_split(t, sep);
        lemma_first_index(t, sep);
        assert(split(s, sep).drop_first() =~= rest);
        assert forall|k: int| 0 <= k < rest.len() && (#[trigger] rest[k]).len() > 0 implies rest[k][0]
            != b by {
            if k == 0 {
                assert(rest[0] == t.take(first_index(t, sep)));
                assert(rest[0][0] == t[0]);
                assert(t[0] == s[i + 1]);
                assert(s[i] == sep);
            } else {
                assert(rest[k] == rest.drop_first()[k - 1]);
            }
        }
    } else {
        assert(split(s, sep).drop_first() =~= Seq::<Seq<A>>::empty());
    }
}

/// Joining pieces that lack the separator and splitting again gives the
/// pieces back.
pub proof fn lemma_split_join<A>(parts: Seq<Seq<A>>, sep: A)
    requires
        parts.len() >= 1,
        all_lack(parts, sep),
    ensures
        split(join(parts, sep), sep) == parts,
    decreases parts.len(),
{
    let s = join(parts, sep);
    if parts.len() == 1 {
        assert(lacks(parts[0], sep));
        lemma_first_index_is(s, sep, s.len() as int);
        assert(split(s, sep) =~= parts);
    } else {
        let rest = parts.drop_first();
        assert forall|k: int| 0 <= k < rest.len() implies lacks(#[trigger] rest[k], sep) by {
            assert(rest[k] == parts[k + 1]);
        }
        lemma_split_join(rest, sep);
        let head = parts[0];
        assert(lacks(head, sep));
        assert(s == head + seq![sep] + join(rest, sep));
        assert forall|j: int| 0 <= j < head.len() implies s[j] != sep by {
            assert(s[j] == head[j]);
        }
        assert(s[head.len() as int] == sep);
        lemma_first_index_is(s, sep, head.len() as int);
        assert(s.take(head.len() as int) =~= head);
        assert(s.skip(head.len() as int + 1) =~= join(rest, sep));
        assert(split(s, sep) =~= parts);
    }
}

/// Joining one more piece at the end.
pub proof fn lemma_join_push<A>(parts: Seq<Seq<A>>, last: Seq<A>, sep: A)
    ensures
        join(parts.push(last), sep) == if parts.len() == 0 {
            last
        } else {
            join(parts, sep) + seq![sep] + last
        },
    decreases parts.len(),
{
    let all = parts.push(last);
    if parts.len() == 0 {
        assert(all[0] == last);
    } else if parts.len() == 1 {
        assert(all.drop_first() =~= seq![last]);
        assert(join(all.drop_first(), sep) == last);
        assert(all[0] == parts[0]);
    } else {
        lemma_join_push(parts.drop_first(), last, sep);
        assert(all.drop_first() =~= parts.drop_first().push(last));
        assert(all[0] == parts[0]);
        assert(join(all, sep) =~= join(parts, sep) + seq![sep] + last);
    }
}

/// A joined text lacks whatever its pieces and the separator lack.
pub proof fn lemma_join_lacks<A>(parts: Seq<Seq<A>>, sep: A, a: A)
    requires
        all_lack(parts, a),
        sep != a,
    ensures
        lacks(join(parts, sep), a),
    decreases parts.len(),
{
    if parts.len() == 1 {
        assert(lacks(parts[0], a));
    } else if parts.len() > 1 {
        let rest = parts.drop_first();
        assert forall|k: int| 0 <= k < rest.len() implies lacks(#[trigger] rest[k], a) by {
            assert(rest[k] == parts[k + 1]);
        }
        lemma_join_lacks(rest, sep, a);
        assert(lacks(parts[0], a));
    }
}

/// Where every piece but the first is non-empty and none of those begins
/// with `b`, and no piece holds `sep`, the joined text never has `sep`
/// directly followed by `b`.
pub proof fn lemma_join_no_pair<A>(parts: Seq<Seq<A>>, sep: A, b: A)
    requires
        parts.len() >= 1,
        all_lack(parts, sep),
        all_nonempty(parts.drop_first()),
        none_starts_with(parts.drop_first(), b),
    ensures
        no_pair(join(parts, sep), sep, b),
    decreases parts.len(),
{
    let s = join(parts, sep);
    if parts.len() == 1 {
        assert(lacks(parts[0], sep));
    } else {
        let rest = parts.drop_first();
        let head = parts[0];
        let tail = join(rest, sep);
        assert forall|k: int| 0 <= k < rest.len() implies lacks(#[trigger] rest[k], sep) by {
            assert(rest[k] == parts[k + 1]);
        }
        let rest2 = rest.drop_first();
        assert forall|k: int| 0 <= k < rest2.len() implies (#[trigger] rest2[k]).len() > 0 by {
            assert(rest2[k] == rest[k + 1]);
        }
        assert forall|k: int| 0 <= k < rest2.len() && (#[trigger] rest2[k]).len() > 0 implies rest2[k][0]
            != b by {
            assert(rest2[k] == rest[k + 1]);
        }
        lemma_join_no_pair(rest, sep, b);
        assert(lacks(head, sep));
        assert(rest[0].len() > 0);
        assert(rest[0][0] != b);
        assert(tail.len() > 0 && tail[0] == rest[0][0]) by {
            if rest.len() > 1 {
                assert(tail == rest[0] + seq![sep] + join(rest.drop_first(), sep));
            }
        }
        assert(s == head + seq![sep] + tail);
        assert forall|i: int| 0 <= i && i + 1 < s.len() implies !(s[i] == sep && #[trigger] s[i
            + 1] == b) by {
            if i < head.len() {
                assert(s[i] == head[i]);
            } else if i == head.len() {
                assert(s[i + 1] == tail[0]);
            } else {
                assert(s[i] == tail[i - head.len() - 1]);
                assert(s[i + 1] == tail[i - head.len() - 1 + 1]);
            }
        }
    }
}

/// Dropping the empty pieces keeps exactly the non-empty ones: nothing is
/// left to drop where all are non-empty, and what stays has every property
/// that held of all pieces.
pub proof fn lemma_drop_empty<A>(parts: Seq<Seq<A>>)
    ensures
        all_nonempty(drop_empty(parts)),
        all_nonempty(parts) ==> drop_empty(parts) == parts,
        forall|a: A| all_lack(parts, a) ==> all_lack(drop_empty(parts), a),
        forall|a: A| none_starts_with(parts, a) ==> none_starts_with(drop_empty(parts), a),
    decreases parts.len(),
{
    if parts.len() > 0 {
        let init = parts.drop_last();
        let kept = drop_empty(init);
        lemma_drop_empty(init);
        let out = drop_empty(parts);
        if all_nonempty(parts) {
            assert forall|k: int| 0 <= k < init.len() implies (#[trigger] init[k]).len() > 0 by {
                assert(init[k] == parts[k]);
            }
            assert(parts.last() == parts[parts.len() - 1]);
            assert(out =~= parts);
        }
        assert forall|a: A| all_lack(parts, a) implies all_lack(out, a) by {
            assert forall|k: int| 0 <= k < init.len() implies lacks(#[trigger] init[k], a) by {
                assert(init[k] == parts[k]);
            }
            assert(all_lack(init, a));
            assert(all_lack(kept, a));
            assert(lacks(parts[parts.len() - 1], a));
            assert forall|k: int| 0 <= k < out.len() implies lacks(#[trigger] out[k], a) by {
                if k < kept.len() {
                    assert(out[k] == kept[k]);
                }
            }
        }
        assert forall|a: A| none_starts_with(parts, a) implies none_starts_with(out, a) by {
            assert forall|k: int| 0 <= k < init.len() && (#[trigger] init[k]).len() > 0 implies init[k][0]
                != a by {
                assert(init[k] == parts[k]);
            }
            assert(none_starts_with(init, a));
            assert(none_starts_with(kept, a));
            let last = parts[parts.len() - 1];
            assert(last.len() > 0 ==> last[0] != a);
            assert forall|k: int| 0 <= k < out.len() && (#[trigger] out[k]).len() > 0 implies out[k][0]
                != a by {
                if k < kept.len() {
                    assert(out[k] == kept[k]);
                }
            }
        }
        assert forall|k: int| 0 <= k < out.len() implies (#[trigger] out[k]).len() > 0 by {
            if k < kept.len() {
                assert(out[k] == kept[k]);
            }
        }
    }
}

// ---------------------------------------------------------------------------
// Executable helpers
// ---------------------------------------------------------------------------
/// The views of a sequence of string slices.
pub open spec fn strs_view(v: Seq<&str>) -> Seq<Seq<char>> {
    Seq::new(v.len(), |i: int| v[i]@)
}

/// The characters of a string, in order.
pub fn chars_of(s: &str) -> (v: Vec<char>)
    ensures
        v@ == s@,
{
    let mut v: Vec<char> = Vec::new();
    for c in it: s.chars()
        invariant
            it.seq() == s@,
            v@ == it.seq().take(it.index()),
    {
        v.push(c);
    }
    assert(v@ =~= s@);
    v
}

/// Position of the first `c`, or the length if there is none.
pub fn find_char(chars: &Vec<char>, c: char) -> (i: usize)
    ensures
        i == first_index(chars@, c),
        i <= chars.len(),
{
    let n = chars.len();
    let mut i: usize = 0;
    while i < n && chars[i] != c
        invariant
            n == chars.len(),
            i <= n,
            forall|j: int| 0 <= j < i ==> chars@[j] != c,
        decreases n - i,
    {
        i = i + 1;
    }
    proof {
        lemma_first_index_is(chars@, c, i as int);
    }
    i
}

/// Position of the last `c`, if there is one.
pub fn rfind_char(chars: &Vec<char>, c: char) -> (r: Option<usize>)
    ensures
        match r {
            Some(i) => i == last_index(chars@, c) && i < chars.len(),
            None => last_index(chars@, c) == -1,
        },
{
    let n = chars.len();
    let mut i: usize = n;
    while i > 0 && chars[i - 1] != c
        invariant
            n == chars.len(),
            i <= n,
            forall|j: int| i <= j < n ==> chars@[j] != c,
        decreases i,
    {
        i = i - 1;
    }
    proof {
        lemma_last_index_is(chars@, c, i as int - 1);
    }
    if i == 0 {
        None
    } else {
        Some(i - 1)
    }
}

/// Position of the first `a` directly followed by `b`, or the length if
/// there is none.
pub fn find_pair_in(chars: &Vec<char>, a: char, b: char) -> (i: usize)
    ensures
        i == find_pair(chars@, a, b),
        i <= chars.len(),
{
    let n = chars.len();
    let mut i: usize = 0;
    while n - i >= 2 && !(chars[i] == a && chars[i + 1] == b)
        invariant
            n == chars.len(),
            i <= n,
            forall|j: int|
                0 <= j < i && j + 1 < n ==> !(chars@[j] == a && #[trigger] chars@[j + 1] == b),
        decreases n - i,
    {
        i = i + 1;
    }
    if n - i >= 2 {
        proof {
            lemma_find_pair_is(chars@, a, b, i as int);
        }
        i
    } else {
        proof {
            lemma_find_pair_is(chars@, a, b, n as int);
        }
        n
    }
}

/// Number of leading characters equal to `c`.
pub fn count_leading(chars: &Vec<char>, c: char) -> (i: usize)
    ensures
        i == leading(chars@, c),
        i <= chars.len(),
{
    let n = chars.len();
    let mut i: usize = 0;
    while i < n && chars[i] == c
        invariant
            n == chars.len(),
            i <= n,
            forall|j: int| 0 <= j < i ==> chars@[j] == c,
        decreases n - i,
    {
        i = i + 1;
    }
    proof {
        lemma_leading_is(chars@, c, i as int);
    }
    i
}

/// The string without its leading characters equal to `c`.
pub fn trim_start_str<'a>(s: &'a str, c: char) -> (out: &'a str)
    ensures
        out@ == trim_start(s@, c),
{
    let chars = chars_of(s);
    let k = count_leading(&chars, c);
    let out = s.substring_char(k, chars.len());
    assert(out@ =~= s@.skip(k as int));
    out
}

/// Whether a character is white space, as the Unicode property
/// `White_Space` says.
pub open spec fn is_space(c: char) -> bool {
    let code = c as u32;
    ||| 0x09 <= code <= 0x0D
    ||| code == 0x20
    ||| code == 0x85
    ||| code == 0xA0
    ||| code == 0x1680
    ||| 0x2000 <= code <= 0x200A
    ||| code == 0x2028
    ||| code == 0x2029
    ||| code == 0x202F
    ||| code == 0x205F
    ||| code == 0x3000
}

/// Number of white-space characters at the start.
pub open spec fn leading_space(s: Seq<char>) -> int
    decreases s.len(),
{
    if s.len() > 0 && is_space(s[0]) {
        1 + leading_space(s.drop_first())
    } else {
        0
    }
}

/// Number of white-space characters at the end.
pub open spec fn trailing_space(s: Seq<char>) -> int
    decreases s.len(),
{
    if s.len() > 0 && is_space(s.last()) {
        1 + trailing_space(s.drop_last())
    } else {
        0
    }
}

/// `s` without the white space at its start.
pub open spec fn trim_space_start(s: Seq<char>) -> Seq<char> {
    s.skip(leading_space(s))
}

/// `s` without the white space at its start and at its end.
pub open spec fn trim_space(s: Seq<char>) -> Seq<char> {
    let rest = trim_space_start(s);
    rest.take(rest.len() - trailing_space(rest))
}

/// An index before which everything is white space, and at which
/// something else stands or the text ends, is the number of leading
/// white-space characters.
pub proof fn lemma_leading_space_is(s: Seq<char>, i: int)
    requires
        0 <= i <= s.len(),
        forall|j: int| 0 <= j < i ==> is_space(s[j]),
        i < s.len() ==> !is_space(s[i]),
    ensures
        leading_space(s) == i,
    decreases s.len(),
{
    if s.len() > 0 && i > 0 {
        let t = s.drop_first();
        assert(is_space(s[0]));
        assert forall|j: int| 0 <= j < i - 1 implies is_space(t[j]) by {
            assert(t[j] == s[j + 1]);
        }
        if i < s.len() {
            assert(t[i - 1] == s[i]);
        }
        lemma_leading_space_is(t, i - 1);
    }
}

/// A number of characters at the end that are all white space, before
/// which something else stands or the text begins, is the number of
/// trailing white-space characters.
pub proof fn lemma_trailing_space_is(s: Seq<char>, i: int)
    requires
        0 <= i <= s.len(),
        forall|j: int| s.len() - i <= j < s.len() ==> is_space(s[j]),
        i < s.len() ==> !is_space(s[s.len() - i - 1]),
    ensures
        trailing_space(s) == i,
    decreases s.len(),
{
    if s.len() > 0 && i > 0 {
        let t = s.drop_last();
        assert(is_space(s[s.len() - 1]));
        assert forall|j: int| t.len() - (i - 1) <= j < t.len() implies is_space(t[j]) by {
            assert(t[j] == s[j]);
        }
        if i < s.len() {
            assert(t[t.len() - (i - 1) - 1] == s[s.len() - i - 1]);
        }
        lemma_trailing_space_is(t, i - 1);
    }
}

/// Whether the character is white space.
pub fn is_space_char(c: char) -> (yes: bool)
    ensures
        yes == is_space(c),
{
    let code = c as u32;
    (0x09 <= code && code <= 0x0D) || code == 0x20 || code == 0x85 || code == 0xA0 || code
        == 0x1680 || (0x2000 <= code && code <= 0x200A) || code == 0x2028 || code == 0x2029
        || code == 0x202F || code == 0x205F || code == 0x3000
}

/// The string without the white space at its start.
pub fn trim_space_start_str<'a>(s: &'a str) -> (out: &'a str)
    ensures
        out@ == trim_space_start(s@),
{
    let chars = chars_of(s);
    let n = chars.len();
    let mut i: usize = 0;
    while i < n && is_space_char(chars[i])
        invariant
            n == chars.len(),
            i <= n,
            forall|j: int| 0 <= j < i ==> is_space(chars@[j]),
        decreases n - i,
    {
        i = i + 1;
    }
    proof {
        lemma_leading_space_is(chars@, i as int);
    }
    let out = s.substring_char(i, n);
    assert(out@ =~= s@.skip(i as int));
    out
}

/// The string without the white space at its start and at its end.
pub fn trim_space_str<'a>(s: &'a str) -> (out: &'a str)
    ensures
        out@ == trim_space(s@),
{
    let rest = trim_space_start_str(s);
    let chars = chars_of(rest);
    let n = chars.len();
    let mut i: usize = n;
    while i > 0 && is_space_char(chars[i - 1])
        invariant
            n == chars.len(),
            i <= n,
            forall|j: int| i <= j < n ==> is_space(chars@[j]),
        decreases i,
    {
        i = i - 1;
    }
    proof {
        lemma_trailing_space_is(chars@, n - i);
    }
    rest.substring_char(0, i)
}

/// What stands before the first `c`: all of `s` if there is none.
pub open spec fn head_of(s: Seq<char>, c: char) -> Seq<char> {
    s.take(first_index(s, c))
}

/// What stands behind the first `c`, if there is one.
pub open spec fn tail_of(s: Seq<char>, c: char) -> Option<Seq<char>> {
    let i = first_index(s, c);
    if 0 <= i < s.len() {
        Some(s.skip(i + 1))
    } else {
        None
    }
}

/// The string cut at its first `c`, which belongs to neither part.
pub fn split_once<'a>(s: &'a str, c: char) -> (r: (&'a str, Option<&'a str>))
    ensures
        r.0@ == head_of(s@, c),
        match r.1 {
            Some(tail) => tail_of(s@, c) == Some(tail@),
            None => tail_of(s@, c) is None,
        },
{
    let chars = chars_of(s);
    let n = chars.len();
    let i = find_char(&chars, c);
    if i < n {
        let tail = s.substring_char(i + 1, n);
        assert(tail@ =~= s@.skip(i + 1));
        (s.substring_char(0, i), Some(tail))
    } else {
        assert(s@.take(n as int) =~= s@);
        (s, None)
    }
}

/// The pieces of `s` between the places where `a` is directly followed by
/// `b`. There is always at least one piece.
pub open spec fn split_at_pairs<A>(s: Seq<A>, a: A, b: A) -> Seq<Seq<A>>
    decreases s.len(),
{
    let i = find_pair(s, a, b);
    if 0 <= i && i + 2 <= s.len() {
        seq![s.take(i)] + split_at_pairs(s.skip(i + 2), a, b)
    } else {
        seq![s]
    }
}

/// The pieces of `s` that end where `a` is directly followed by `b`, and
/// what is left behind the last such place if that is not empty.
pub open spec fn terminated_by<A>(s: Seq<A>, a: A, b: A) -> Seq<Seq<A>> {
    let parts = split_at_pairs(s, a, b);
    if parts.last().len() == 0 {
        parts.drop_last()
    } else {
        parts
    }
}

/// The pieces of a string that end with the two characters `a`, `b`, and
/// what is left behind the last of them if that is not empty.
pub fn split_terminated<'a>(s: &'a str, a: char, b: char) -> (out: Vec<&'a str>)
    ensures
        strs_view(out@) == terminated_by(s@, a, b),
{
    let chars = chars_of(s);
    let n = chars.len();
    let mut out: Vec<&'a str> = Vec::new();
    let mut start: usize = 0;
    let mut i: usize = 0;
    assert(s@.skip(0) =~= s@);
    assert(strs_view(out@) + split_at_pairs(s@, a, b) =~= split_at_pairs(s@, a, b));
    while n - i >= 2
        invariant
            chars@ == s@,
            n == chars.len(),
            start <= i <= n,
            forall|j: int|
                start <= j < i && j + 1 < n ==> !(chars@[j] == a && #[trigger] chars@[j + 1] == b),
            strs_view(out@) + split_at_pairs(s@.skip(start as int), a, b) == split_at_pairs(
                s@,
                a,
                b,
            ),
        decreases n - i,
    {
        if chars[i] == a && chars[i + 1] == b {
            let piece = s.substring_char(start, i);
            let ghost prev = out@;
            out.push(piece);
            proof {
                let rest = s@.skip(start as int);
                assert forall|j: int| 0 <= j < i - start && j + 1 < rest.len() implies !(rest[j]
                    == a && #[trigger] rest[j + 1] == b) by {
                    assert(rest[j] == chars@[start + j]);
                    assert(rest[j + 1] == chars@[start + j + 1]);
                }
                assert(rest[i - start] == chars@[i as int]);
                assert(rest[i - start + 1] == chars@[i + 1]);
                lemma_find_pair_is(rest, a, b, i - start);
                assert(rest.take(i - start) =~= piece@);
                assert(rest.skip(i - start + 2) =~= s@.skip(i + 2));
                assert(strs_view(out@) =~= strs_view(prev).push(piece@));
                assert(strs_view(out@) + split_at_pairs(s@.skip(i + 2), a, b) =~= strs_view(prev)
                    + split_at_pairs(rest, a, b));
            }
            start = i + 2;
            i = i + 2;
        } else {
            i = i + 1;
        }
    }
    let piece = s.substring_char(start, n);
    proof {
        let rest = s@.skip(start as int);
        assert forall|j: int| 0 <= j < rest.len() && j + 1 < rest.len() implies !(rest[j] == a
            && #[trigger] rest[j + 1] == b) by {
            assert(rest[j] == chars@[start + j]);
            assert(rest[j + 1] == chars@[start + j + 1]);
        }
        lemma_find_pair_is(rest, a, b, rest.len() as int);
        assert(piece@ =~= rest);
        assert(split_at_pairs(rest, a, b) == seq![rest]);
        assert(split_at_pairs(s@, a, b) =~= strs_view(out@).push(rest));
    }
    if start < n {
        let ghost prev = out@;
        out.push(piece);
        assert(strs_view(out@) =~= strs_view(prev).push(piece@));
    } else {
        assert(split_at_pairs(s@, a, b).drop_last() =~= strs_view(out@));
    }
    out
}

/// Whether `s` begins with `prefix`.
pub fn starts_with(s: &str, prefix: &str) -> (r: bool)
    ensures
        r == prefix@.is_prefix_of(s@),
{
    let cs = chars_of(s);
    let cp = chars_of(prefix);
    if cp.len() > cs.len() {
        return false;
    }
    let mut i: usize = 0;
    while i < cp.len()
        invariant
            cs@ == s@,
            cp@ == prefix@,
            cp.len() <= cs.len(),
            i <= cp.len(),
            forall|j: int| 0 <= j < i ==> cs@[j] == cp@[j],
        decreases cp.len() - i,
    {
        if cs[i] != cp[i] {
            assert(!prefix@.is_prefix_of(s@)) by {
                if prefix@.is_prefix_of(s@) {
                    assert(s@.subrange(0, prefix@.len() as int)[i as int] == prefix@[i as int]);
                }
            }
            return false;
        }
        i = i + 1;
    }
    assert(s@.subrange(0, prefix@.len() as int) =~= prefix@);
    true
}

/// The pieces of `s` between the occurrences of `c`.
pub fn split_str<'a>(s: &'a str, c: char) -> (out: Vec<&'a str>)
    ensures
        strs_view(out@) == split(s@, c),
{
    let chars = chars_of(s);
    let n = chars.len();
    let mut out: Vec<&'a str> = Vec::new();
    let mut start: usize = 0;
    let mut i: usize = 0;
    assert(s@.skip(0) =~= s@);
    assert(strs_view(out@) + split(s@, c) =~= split(s@, c));
    while i < n
        invariant
            chars@ == s@,
            n == chars.len(),
            start <= i <= n,
            forall|j: int| start <= j < i ==> chars@[j] != c,
            strs_view(out@) + split(s@.skip(start as int), c) == split(s@, c),
        decreases n - i,
    {
        if chars[i] == c {
            let piece = s.substring_char(start, i);
            let ghost prev = out@;
            out.push(piece);
            proof {
                let rest = s@.skip(start as int);
                assert forall|j: int| 0 <= j < i - start implies rest[j] != c by {
                    assert(rest[j] == chars@[start + j]);
                }
                lemma_first_index_is(rest, c, i - start);
                assert(rest.take(i - start) =~= piece@);
                assert(rest.skip(i - start + 1) =~= s@.skip(i + 1));
                assert(split(rest, c) == seq![piece@] + split(s@.skip(i + 1), c));
                assert(strs_view(out@) =~= strs_view(prev).push(piece@));
                assert(strs_view(out@) + split(s@.skip(i + 1), c) =~= strs_view(prev) + split(
                    rest,
                    c,
                ));
            }
            start = i + 1;
        }
        i = i + 1;
    }
    let piece = s.substring_char(start, n);
    let ghost prev = out@;
    out.push(piece);
    proof {
        let rest = s@.skip(start as int);
        assert forall|j: int| 0 <= j < n - start implies rest[j] != c by {
            assert(rest[j] == chars@[start + j]);
        }
        lemma_first_index_is(rest, c, n - start);
        assert(piece@ =~= rest);
        assert(split(rest, c) == seq![rest]);
        assert(strs_view(out@) =~= strs_view(prev).push(piece@));
        assert(strs_view(out@) =~= strs_view(prev) + split(rest, c));
    }
    out
}

} // verus!
