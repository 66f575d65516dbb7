//! Searching descriptions: a pattern in which `%` stands for any run of
//! characters and `_` for any one character, matched case-sensitively.

use vstd::prelude::*;

verus! {

/// `text` as a whole matches `pattern`.
pub open spec fn like(pattern: Seq<char>, text: Seq<char>) -> bool
    decreases pattern.len(), text.len(),
{
    if pattern.len() == 0 {
        text.len() == 0
    } else if pattern[0] == '%' {
        like(pattern.drop_first(), text) || (text.len() > 0 && like(pattern, text.drop_first()))
    } else {
        text.len() > 0 && (pattern[0] == '_' || pattern[0] == text[0]) && like(
            pattern.drop_first(),
            text.drop_first(),
        )
    }
}

/// The pattern that a search for `needle` matches texts against: `needle`
/// with a `%` on either side.
pub open spec fn containing(needle: Seq<char>) -> Seq<char> {
    seq!['%'] + needle + seq!['%']
}

/// `needle` holds neither `%` nor `_`.
pub open spec fn literal(needle: Seq<char>) -> bool {
    forall|i: int| 0 <= i < needle.len() ==> #[trigger] needle[i] != '%' && needle[i] != '_'
}

/// `needle` stands somewhere in `text`, character for character.
pub open spec fn occurs_in(needle: Seq<char>, text: Seq<char>) -> bool {
    exists|k: int| occurs_at(needle, text, k)
}

/// `needle` stands in `text` from position `k` on.
pub open spec fn occurs_at(needle: Seq<char>, text: Seq<char>, k: int) -> bool {
    0 <= k && k + needle.len() <= text.len() && text.subrange(k, k + needle.len()) == needle
}

/// One step of `like`, on the pattern from `i` on and the text from `j` on.
pub proof fn lemma_like_step(pattern: Seq<char>, text: Seq<char>, i: int, j: int)
    requires
        0 <= i <= pattern.len(),
        0 <= j <= text.len(),
    ensures
        like(pattern.skip(i), text.skip(j)) == if i == pattern.len() {
            j == text.len()
        } else if pattern[i] == '%' {
            like(pattern.skip(i + 1), text.skip(j)) || (j < text.len() && like(
                pattern.skip(i),
                text.skip(j + 1),
            ))
        } else {
            j < text.len() && (pattern[i] == '_' || pattern[i] == text[j]) && like(
                pattern.skip(i + 1),
                text.skip(j + 1),
            )
        },
{
    if i < pattern.len() {
        assert(pattern.skip(i).drop_first() == pattern.skip(i + 1));
    }
    if j < text.len() {
        assert(text.skip(j).drop_first() == text.skip(j + 1));
    }
}

/// A pattern that starts with `%` matches where the rest of it matches the
/// text from some position on.
pub proof fn lemma_like_any_run(rest: Seq<char>, text: Seq<char>)
    ensures
        like(seq!['%'] + rest, text) <==> exists|k: int|
            0 <= k <= text.len() && like(rest, #[trigger] text.skip(k)),
    decreases text.len(),
{
    let pattern = seq!['%'] + rest;
    assert(pattern.drop_first() == rest);
    assert(text.skip(0) == text);
    if text.len() == 0 {
        if exists|k: int| 0 <= k <= text.len() && like(rest, #[trigger] text.skip(k)) {
            let k = choose|k: int| 0 <= k <= text.len() && like(rest, #[trigger] text.skip(k));
            assert(k == 0);
        }
    } else {
        let tail = text.drop_first();
        lemma_like_any_run(rest, tail);
        if like(pattern, text) {
            if like(rest, text) {
                assert(like(rest, text.skip(0)));
            } else {
                let k = choose|k: int| 0 <= k <= tail.len() && like(rest, #[trigger] tail.skip(k));
                assert(tail.skip(k) == text.skip(k + 1));
            }
        }
        if exists|k: int| 0 <= k <= text.len() && like(rest, #[trigger] text.skip(k)) {
            let k = choose|k: int| 0 <= k <= text.len() && like(rest, #[trigger] text.skip(k));
            if k > 0 {
                assert(tail.skip(k - 1) == text.skip(k));
            }
        }
    }
}

/// A pattern that starts with characters that stand for themselves matches
/// where the text starts with them and the rest of the pattern matches the
/// rest of the text.
pub proof fn lemma_like_literal(needle: Seq<char>, rest: Seq<char>, text: Seq<char>)
    requires
        literal(needle),
    ensures
        like(needle + rest, text) <==> needle.len() <= text.len() && text.take(
            needle.len() as int,
        ) == needle && like(rest, text.skip(needle.len() as int)),
    decreases needle.len(),
{
    let pattern = needle + rest;
    if needle.len() == 0 {
        assert(pattern == rest);
        assert(text.skip(0) == text);
        assert(text.take(0) == needle);
    } else {
        let shorter = needle.drop_first();
        assert(pattern[0] == needle[0]);
        assert(pattern.drop_first() == shorter + rest);
        assert forall|i: int| 0 <= i < shorter.len() implies #[trigger] shorter[i] != '%'
            && shorter[i] != '_' by {
            assert(shorter[i] == needle[i + 1]);
        }
        if text.len() > 0 {
            let tail = text.drop_first();
            lemma_like_literal(shorter, rest, tail);
            let n = needle.len() as int;
            if n <= text.len() {
                assert(tail.skip(n - 1) == text.skip(n));
                if text.take(n) == needle {
                    assert(text[0] == text.take(n)[0]);
                    assert(tail.take(n - 1) == shorter);
                }
                if tail.take(n - 1) == shorter && text[0] == needle[0] {
                    assert(text.take(n) == needle) by {
                        assert forall|i: int| 0 <= i < n implies text.take(n)[i] == needle[i] by {
                            if i > 0 {
                                assert(tail.take(n - 1)[i - 1] == shorter[i - 1]);
                            }
                        }
                    }
                }
            }
        }
    }
}

/// A search for a needle that holds neither `%` nor `_` finds exactly the
/// texts in which the needle stands.
pub proof fn lemma_like_containing(needle: Seq<char>, text: Seq<char>)
    requires
        literal(needle),
    ensures
        like(containing(needle), text) <==> occurs_in(needle, text),
{
    let n = needle.len() as int;
    let rest = needle + seq!['%'];
    assert(containing(needle) == seq!['%'] + rest);
    lemma_like_any_run(rest, text);
    assert forall|k: int| 0 <= k <= text.len() implies (like(rest, #[trigger] text.skip(k))
        <==> occurs_at(needle, text, k)) by {
        let from = text.skip(k);
        lemma_like_literal(needle, seq!['%'], from);
        if n <= from.len() {
            assert(from.take(n) == text.subrange(k, k + n));
            lemma_like_any_run(Seq::empty(), from.skip(n));
            assert(seq!['%'] + Seq::<char>::empty() == seq!['%']);
            assert(from.skip(n).skip(from.skip(n).len() as int).len() == 0);
        }
    }
    if like(containing(needle), text) {
        let k = choose|k: int| 0 <= k <= text.len() && like(rest, #[trigger] text.skip(k));
        assert(occurs_at(needle, text, k));
    }
    if occurs_in(needle, text) {
        let k = choose|k: int| occurs_at(needle, text, k);
        assert(like(rest, text.skip(k)));
    }
}

/// Whether `text` as a whole matches `pattern`.
pub fn like_matches(pattern: &Vec<char>, text: &Vec<char>) -> (matches: bool)
    ensures
        matches == like(pattern@, text@),
{
    let m: usize = pattern.len();
    let n: usize = text.len();
    // `row[j]` says whether the pattern from `i` on matches the text from `j` on.
    let mut row: Vec<bool> = Vec::new();
    let mut filled: usize = 0;
    while filled < n
        invariant
            filled <= n,
            n == text@.len(),
            row@.len() == filled,
            forall|j: int| 0 <= j < filled ==> !#[trigger] row@[j],
        decreases n - filled,
    {
        row.push(false);
        filled += 1;
    }
    row.push(true);
    let mut i: usize = m;
    proof {
        assert forall|j: int| 0 <= j <= n implies #[trigger] row@[j] == like(
            pattern@.skip(i as int),
            text@.skip(j),
        ) by {
            lemma_like_step(pattern@, text@, i as int, j);
        }
    }
    while i > 0
        invariant
            i <= m,
            m == pattern@.len(),
            n == text@.len(),
            row@.len() == n + 1,
            forall|j: int|
                0 <= j <= n ==> #[trigger] row@[j] == like(pattern@.skip(i as int), text@.skip(j)),
        decreases i,
    {
        i -= 1;
        let c = pattern[i];
        let ghost below = row@;
        let mut right: bool = row[n];
        row.set(n, c == '%' && right);
        proof {
            lemma_like_step(pattern@, text@, i as int, n as int);
        }
        let mut j: usize = n;
        while j > 0
            invariant
                j <= n,
                i < m,
                m == pattern@.len(),
                n == text@.len(),
                c == pattern@[i as int],
                row@.len() == n + 1,
                below.len() == n + 1,
                right == below[j as int],
                forall|l: int| 0 <= l < j ==> #[trigger] row@[l] == below[l],
                forall|l: int|
                    0 <= l <= n ==> #[trigger] below[l] == like(
                        pattern@.skip(i + 1),
                        text@.skip(l),
                    ),
                forall|l: int|
                    j <= l <= n ==> #[trigger] row@[l] == like(
                        pattern@.skip(i as int),
                        text@.skip(l),
                    ),
            decreases j,
        {
            j -= 1;
            let here: bool = row[j];
            let found: bool = if c == '%' {
                here || row[j + 1]
            } else {
                (c == '_' || c == text[j]) && right
            };
            proof {
                lemma_like_step(pattern@, text@, i as int, j as int);
                assert(row@[j + 1] == like(pattern@.skip(i as int), text@.skip(j + 1)));
                assert(below[j as int] == like(pattern@.skip(i + 1), text@.skip(j as int)));
                assert(below[j + 1] == like(pattern@.skip(i + 1), text@.skip(j + 1)));
            }
            row.set(j, found);
            right = here;
        }
    }
    proof {
        assert(pattern@.skip(0) == pattern@);
        assert(text@.skip(0) == text@);
    }
    row[0]
}

/// The characters of `text`.
pub fn chars_of(text: &str) -> (chars: Vec<char>)
    ensures
        chars@ == text@,
{
    let mut chars: Vec<char> = Vec::new();
    for c in it: text.chars()
        invariant
            it.seq() == text@,
            chars@ == text@.take(it.index() as int),
    {
        chars.push(c);
    }
    proof {
        assert(text@.take(text@.len() as int) == text@);
    }
    chars
}

/// The pattern that a search for `needle` matches texts against.
pub fn containing_pattern(needle: &str) -> (pattern: Vec<char>)
    ensures
        pattern@ == containing(needle@),
{
    let mut pattern: Vec<char> = Vec::new();
    pattern.push('%');
    for c in it: needle.chars()
        invariant
            it.seq() == needle@,
            pattern@ == seq!['%'] + needle@.take(it.index() as int),
    {
        pattern.push(c);
    }
    proof {
        assert(needle@.take(needle@.len() as int) == needle@);
    }
    pattern.push('%');
    pattern
}

/// Whether a search for `needle` finds `text`.
pub fn found_in(needle: &str, text: &str) -> (found: bool)
    ensures
        found == like(containing(needle@), text@),
{
    let pattern = containing_pattern(needle);
    let chars = chars_of(text);
    like_matches(&pattern, &chars)
}

} // verus!
