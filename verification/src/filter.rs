use vstd::prelude::*;

verus! {

/// The result of `str::to_lowercase` on a character sequence: the Unicode
/// lowercase form, a function of the characters alone.
pub uninterp spec fn lower_of(s: Seq<char>) -> Seq<char>;

/// Relies on `str::to_lowercase`: the lowercase form of `s` depends on the
/// characters of `s` alone, and an empty string lowers to an empty string.
/// The `chars().collect()` chain only converts the result.
#[verifier::external_body]
pub(crate) fn lower_str(s: &str) -> (r: Vec<char>)
    ensures
        r@ == lower_of(s@),
        s@.len() == 0 ==> r@.len() == 0,
{
    s.to_lowercase().chars().collect()
}

/// Relies on `String`'s `FromIterator<char>` implementation: collecting
/// characters yields the string of exactly those characters.
#[verifier::external_body]
pub(crate) fn chars_to_string(v: &Vec<char>) -> (r: String)
    ensures
        r@ == v@,
{
    v.iter().collect()
}

/// True when `needle` occurs contiguously inside `hay`.
pub open spec fn is_substring(needle: Seq<char>, hay: Seq<char>) -> bool {
    exists|i: int|
        0 <= i && i + needle.len() <= hay.len() && #[trigger] hay.subrange(
            i,
            i + needle.len() as int,
        ) == needle
}

/// A command matches a query when the lowercased command contains the
/// lowercased query; an empty query matches every command.
pub open spec fn query_matches(cmd: Seq<char>, query: Seq<char>) -> bool {
    is_substring(lower_of(query), lower_of(cmd))
}

/// True when `needle` occurs in `hay` starting at position `at`.
fn eq_at(hay: &Vec<char>, needle: &Vec<char>, at: usize) -> (b: bool)
    requires
        at + needle@.len() <= hay@.len(),
    ensures
        b == (hay@.subrange(at as int, at + needle@.len() as int) == needle@),
{
    let hay_len = hay.len();
    let mut j: usize = 0;
    while j < needle.len()
        invariant
            at + needle@.len() <= hay@.len(),
            hay@.len() == hay_len,
            j <= needle@.len(),
            forall|k: int| 0 <= k < j ==> hay@[at + k] == needle@[k],
        decreases needle@.len() - j,
    {
        if hay[at + j] != needle[j] {
            proof {
                assert(hay@.subrange(at as int, at + needle@.len() as int)[j as int] == hay@[at
                    + j]);
            }
            return false;
        }
        j += 1;
    }
    proof {
        assert(hay@.subrange(at as int, at + needle@.len() as int) =~= needle@);
    }
    true
}

/// Substring containment over character vectors, decided exactly.
pub fn contains_chars(hay: &Vec<char>, needle: &Vec<char>) -> (b: bool)
    ensures
        b == is_substring(needle@, hay@),
{
    if needle.len() > hay.len() {
        return false;
    }
    if needle.len() == 0 {
        proof {
            assert(hay@.subrange(0, 0 + needle@.len() as int) =~= needle@);
            assert(is_substring(needle@, hay@));
        }
        return true;
    }
    let hay_len = hay.len();
    let end = hay.len() - needle.len();
    let mut i: usize = 0;
    while i <= end
        invariant
            1 <= needle@.len() <= hay@.len(),
            hay@.len() == hay_len,
            end == hay@.len() - needle@.len(),
            i <= end + 1,
            forall|k: int|
                0 <= k < i ==> #[trigger] hay@.subrange(k, k + needle@.len() as int) != needle@,
        decreases end + 1 - i,
    {
        if eq_at(hay, needle, i) {
            proof {
                assert(0 <= i as int && i as int + needle@.len() <= hay@.len() && hay@.subrange(
                    i as int,
                    i as int + needle@.len() as int,
                ) == needle@);
            }
            return true;
        }
        i += 1;
    }
    false
}

/// The indices of the commands that match the query, in input order.
pub open spec fn filter_idx(cmds: Seq<Seq<char>>, query: Seq<char>) -> Seq<int>
    decreases cmds.len(),
{
    if cmds.len() == 0 {
        Seq::empty()
    } else {
        let pre = filter_idx(cmds.drop_last(), query);
        if query_matches(cmds.last(), query) {
            pre.push(cmds.len() - 1)
        } else {
            pre
        }
    }
}

/// The filtered indices are a strictly increasing selection of exactly the
/// positions whose command matches the query.
pub proof fn lemma_filter_idx_props(cmds: Seq<Seq<char>>, query: Seq<char>)
    ensures
        forall|k: int|
            0 <= k < filter_idx(cmds, query).len() ==> 0 <= #[trigger] filter_idx(cmds, query)[k]
                < cmds.len() && query_matches(cmds[filter_idx(cmds, query)[k]], query),
        forall|k1: int, k2: int|
            0 <= k1 < k2 < filter_idx(cmds, query).len() ==> filter_idx(cmds, query)[k1]
                < filter_idx(cmds, query)[k2],
        forall|i: int|
            0 <= i < cmds.len() && query_matches(cmds[i], query) ==> filter_idx(
                cmds,
                query,
            ).contains(i),
    decreases cmds.len(),
{
    if cmds.len() == 0 {
    } else {
        lemma_filter_idx_props(cmds.drop_last(), query);
        let pre = filter_idx(cmds.drop_last(), query);
        assert forall|i: int|
            0 <= i < cmds.len() && query_matches(cmds[i], query) implies filter_idx(
            cmds,
            query,
        ).contains(i) by {
            if i < cmds.len() - 1 {
                assert(cmds.drop_last()[i] == cmds[i]);
                assert(pre.contains(i));
                let k = choose|k: int| 0 <= k < pre.len() && pre[k] == i;
                if query_matches(cmds.last(), query) {
                    assert(filter_idx(cmds, query)[k] == i);
                } else {
                    assert(filter_idx(cmds, query)[k] == i);
                }
            } else {
                assert(cmds.last() == cmds[i]);
                assert(filter_idx(cmds, query).last() == i);
            }
        }
    }
}

/// Occurrence is transitive: what occurs in a part occurs in the whole.
pub proof fn lemma_substring_trans(a: Seq<char>, b: Seq<char>, c: Seq<char>)
    requires
        is_substring(a, b),
        is_substring(b, c),
    ensures
        is_substring(a, c),
{
    let i = choose|i: int|
        0 <= i && i + a.len() <= b.len() && #[trigger] b.subrange(i, i + a.len() as int) == a;
    let j = choose|j: int|
        0 <= j && j + b.len() <= c.len() && #[trigger] c.subrange(j, j + b.len() as int) == b;
    assert(c.subrange(j + i, j + i + a.len() as int) =~= a) by {
        assert forall|m: int| 0 <= m < a.len() implies c.subrange(
            j + i,
            j + i + a.len() as int,
        )[m] == a[m] by {
            assert(b.subrange(i, i + a.len() as int)[m] == a[m]);
            assert(c.subrange(j, j + b.len() as int)[i + m] == b[i + m]);
        }
    }
}

/// A prefix occurs as a substring, at position zero.
pub proof fn lemma_prefix_is_substring(a: Seq<char>, b: Seq<char>)
    requires
        a.len() <= b.len(),
        a == b.subrange(0, a.len() as int),
    ensures
        is_substring(a, b),
{
    assert(0 <= 0int && 0 + a.len() <= b.len() && b.subrange(0, 0 + a.len() as int) == a);
}

/// Narrowing law: refining the query only shrinks the filtered set. Whenever
/// the lowered form of `q1` occurs inside the lowered form of `q2` — as when
/// `q2` extends `q1` and lowering keeps the prefix — every index the filter
/// keeps under `q2` it also keeps under `q1`.
pub proof fn lemma_query_narrows(cmds: Seq<Seq<char>>, q1: Seq<char>, q2: Seq<char>)
    ensures
        is_substring(lower_of(q1), lower_of(q2)) ==> forall|i: int|
            filter_idx(cmds, q2).contains(i) ==> #[trigger] filter_idx(cmds, q1).contains(i),
{
    if is_substring(lower_of(q1), lower_of(q2)) {
        lemma_filter_idx_props(cmds, q2);
        lemma_filter_idx_props(cmds, q1);
        assert forall|i: int| filter_idx(cmds, q2).contains(i) implies #[trigger] filter_idx(
            cmds,
            q1,
        ).contains(i) by {
            let k = choose|k: int|
                0 <= k < filter_idx(cmds, q2).len() && filter_idx(cmds, q2)[k] == i;
            assert(query_matches(cmds[i], q2));
            lemma_substring_trans(lower_of(q1), lower_of(q2), lower_of(cmds[i]));
        }
    }
}

} // verus!
