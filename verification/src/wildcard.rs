//! Wildcard patterns: `*` stands for any text, `?` for any one character.
use vstd::prelude::*;
use wildmatch::WildMatch;

verus! {

/// Whether `pattern` covers the whole of `input`.
pub open spec fn wild_matches(pattern: Seq<char>, input: Seq<char>) -> bool
    decreases pattern.len(), input.len(),
{
    if pattern.len() == 0 {
        input.len() == 0
    } else if pattern[0] == '*' {
        wild_matches(pattern.drop_first(), input) || (input.len() > 0 && wild_matches(
            pattern,
            input.drop_first(),
        ))
    } else {
        input.len() > 0 && (pattern[0] == '?' || pattern[0] == input[0]) && wild_matches(
            pattern.drop_first(),
            input.drop_first(),
        )
    }
}

/// [`WildMatch::new`] and [`WildMatch::matches`]: whether the pattern covers
/// the whole input, where `*` stands for any number of characters, `?` for
/// exactly one, and every other character for itself.
#[verifier::external_body]
pub(crate) fn matches_wildcard(pattern: &str, input: &str) -> (r: bool)
    ensures
        r == wild_matches(pattern@, input@),
{
    WildMatch::new(pattern).matches(input)
}

/// A pattern covers its own text.
pub proof fn pattern_matches_itself(pattern: Seq<char>)
    ensures
        wild_matches(pattern, pattern),
    decreases pattern.len(),
{
    if pattern.len() > 0 {
        pattern_matches_itself(pattern.drop_first());
        if pattern[0] == '*' {
            lemma_star_absorbs(pattern, pattern);
        }
    }
}

/// What the rest of the pattern covers, a leading `*` covers with one more
/// character in front.
proof fn lemma_star_absorbs(pattern: Seq<char>, input: Seq<char>)
    requires
        pattern.len() > 0,
        pattern[0] == '*',
        input.len() > 0,
        wild_matches(pattern.drop_first(), input.drop_first()),
    ensures
        wild_matches(pattern, input),
{
    assert(wild_matches(pattern, input.drop_first()));
}

/// A pattern without `*` and `?` covers its own text and nothing else.
pub proof fn literal_pattern_matches_only_itself(pattern: Seq<char>, input: Seq<char>)
    requires
        !pattern.contains('*'),
        !pattern.contains('?'),
    ensures
        wild_matches(pattern, input) <==> pattern == input,
    decreases pattern.len(),
{
    if pattern.len() == 0 {
        assert(wild_matches(pattern, input) <==> input =~= pattern);
    } else {
        assert(pattern.contains(pattern[0]));
        let rest = pattern.drop_first();
        assert(forall|c: char| rest.contains(c) ==> pattern.contains(c)) by {
            assert forall|c: char| rest.contains(c) implies pattern.contains(c) by {
                let i = choose|i: int| 0 <= i < rest.len() && rest[i] == c;
                assert(pattern[i + 1] == c);
            }
        }
        if input.len() > 0 {
            literal_pattern_matches_only_itself(rest, input.drop_first());
            assert(pattern =~= seq![pattern[0]] + rest);
            assert(input =~= seq![input[0]] + input.drop_first());
        }
    }
}

/// A `*` at the end of a pattern stands for whatever follows.
pub proof fn trailing_star_matches_every_continuation(prefix: Seq<char>, rest: Seq<char>)
    ensures
        wild_matches(prefix.push('*'), prefix + rest),
    decreases prefix.len() + rest.len(),
{
    let pattern = prefix.push('*');
    if prefix.len() == 0 {
        assert(prefix + rest =~= rest);
        if rest.len() == 0 {
            assert(wild_matches(pattern.drop_first(), rest));
        } else {
            trailing_star_matches_every_continuation(prefix, rest.drop_first());
            assert(prefix + rest.drop_first() =~= rest.drop_first());
            assert(wild_matches(pattern, rest));
        }
    } else {
        trailing_star_matches_every_continuation(prefix.drop_first(), rest);
        assert(pattern.drop_first() =~= prefix.drop_first().push('*'));
        assert((prefix + rest).drop_first() =~= prefix.drop_first() + rest);
        if pattern[0] == '*' {
            lemma_star_absorbs(pattern, prefix + rest);
        }
    }
}

/// A pattern in two parts covers what can be parted so that each part covers its
/// own.
pub proof fn patterns_match_part_by_part(front: Seq<char>, back: Seq<char>, input: Seq<char>)
    ensures
        wild_matches(front + back, input) <==> exists|k: int|
            0 <= k <= input.len() && wild_matches(front, #[trigger] input.take(k)) && wild_matches(
                back,
                input.skip(k),
            ),
    decreases front.len(), input.len(),
{
    let whole = front + back;
    if front.len() == 0 {
        assert(whole =~= back);
        assert(input.skip(0) =~= input);
        assert(input.take(0).len() == 0);
        if exists|k: int|
            0 <= k <= input.len() && wild_matches(front, #[trigger] input.take(k)) && wild_matches(
                back,
                input.skip(k),
            ) {
            let k = choose|k: int|
                0 <= k <= input.len() && wild_matches(front, #[trigger] input.take(k))
                    && wild_matches(back, input.skip(k));
            assert(k == 0);
        }
    } else {
        let rest = front.drop_first();
        assert(whole[0] == front[0]);
        assert(whole.drop_first() =~= rest + back);
        patterns_match_part_by_part(rest, back, input);
        if input.len() > 0 {
            patterns_match_part_by_part(rest, back, input.drop_first());
            patterns_match_part_by_part(front, back, input.drop_first());
        }
        lemma_parted_one_way(front, back, input);
        lemma_parted_other_way(front, back, input);
    }
}

proof fn lemma_parted_one_way(front: Seq<char>, back: Seq<char>, input: Seq<char>)
    requires
        front.len() > 0,
        wild_matches(front.drop_first() + back, input) ==> exists|k: int|
            0 <= k <= input.len() && wild_matches(front.drop_first(), #[trigger] input.take(k))
                && wild_matches(back, input.skip(k)),
        input.len() > 0 && wild_matches(front.drop_first() + back, input.drop_first())
            ==> exists|k: int|
            0 <= k <= input.drop_first().len() && wild_matches(
                front.drop_first(),
                #[trigger] input.drop_first().take(k),
            ) && wild_matches(back, input.drop_first().skip(k)),
        input.len() > 0 && wild_matches(front + back, input.drop_first()) ==> exists|k: int|
            0 <= k <= input.drop_first().len() && wild_matches(
                front,
                #[trigger] input.drop_first().take(k),
            ) && wild_matches(back, input.drop_first().skip(k)),
    ensures
        wild_matches(front + back, input) ==> exists|k: int|
            0 <= k <= input.len() && wild_matches(front, #[trigger] input.take(k)) && wild_matches(
                back,
                input.skip(k),
            ),
{
    let whole = front + back;
    let rest = front.drop_first();
    let tail = input.drop_first();
    assert(whole.drop_first() =~= rest + back);
    if wild_matches(whole, input) {
        if front[0] == '*' && wild_matches(rest + back, input) {
            let k = choose|k: int|
                0 <= k <= input.len() && wild_matches(rest, #[trigger] input.take(k))
                    && wild_matches(back, input.skip(k));
            assert(wild_matches(front, input.take(k)));
        } else {
            let next = if front[0] == '*' {
                front
            } else {
                rest
            };
            let k = choose|k: int|
                0 <= k <= tail.len() && wild_matches(next, #[trigger] tail.take(k))
                    && wild_matches(back, tail.skip(k));
            assert(input.take(k + 1).drop_first() =~= tail.take(k));
            assert(input.skip(k + 1) =~= tail.skip(k));
            assert(wild_matches(front, input.take(k + 1)));
        }
    }
}

proof fn lemma_parted_other_way(front: Seq<char>, back: Seq<char>, input: Seq<char>)
    requires
        front.len() > 0,
        (exists|k: int|
            0 <= k <= input.len() && wild_matches(front.drop_first(), #[trigger] input.take(k))
                && wild_matches(back, input.skip(k))) ==> wild_matches(
            front.drop_first() + back,
            input,
        ),
        input.len() > 0 && (exists|k: int|
            0 <= k <= input.drop_first().len() && wild_matches(
                front.drop_first(),
                #[trigger] input.drop_first().take(k),
            ) && wild_matches(back, input.drop_first().skip(k))) ==> wild_matches(
            front.drop_first() + back,
            input.drop_first(),
        ),
        input.len() > 0 && (exists|k: int|
            0 <= k <= input.drop_first().len() && wild_matches(
                front,
                #[trigger] input.drop_first().take(k),
            ) && wild_matches(back, input.drop_first().skip(k))) ==> wild_matches(
            front + back,
            input.drop_first(),
        ),
    ensures
        (exists|k: int|
            0 <= k <= input.len() && wild_matches(front, #[trigger] input.take(k)) && wild_matches(
                back,
                input.skip(k),
            )) ==> wild_matches(front + back, input),
{
    let whole = front + back;
    let rest = front.drop_first();
    let tail = input.drop_first();
    assert(whole.drop_first() =~= rest + back);
    if exists|k: int|
        0 <= k <= input.len() && wild_matches(front, #[trigger] input.take(k)) && wild_matches(
            back,
            input.skip(k),
        ) {
        let k = choose|k: int|
            0 <= k <= input.len() && wild_matches(front, #[trigger] input.take(k))
                && wild_matches(back, input.skip(k));
        if front[0] == '*' && wild_matches(rest, input.take(k)) {
            assert(wild_matches(rest + back, input));
        } else {
            assert(k > 0);
            assert(input.take(k).drop_first() =~= tail.take(k - 1));
            assert(tail.skip(k - 1) =~= input.skip(k));
            assert(input.take(k)[0] == input[0]);
        }
    }
}

/// What a pattern of one character covers: `*` everything, `?` any one character,
/// and any other character itself. The empty pattern covers nothing else.
pub proof fn what_one_character_matches(c: char, input: Seq<char>)
    ensures
        wild_matches(Seq::empty(), input) <==> input.len() == 0,
        c == '*' ==> wild_matches(seq![c], input),
        c == '?' ==> (wild_matches(seq![c], input) <==> input.len() == 1),
        c != '*' && c != '?' ==> (wild_matches(seq![c], input) <==> input == seq![c]),
    decreases input.len(),
{
    let pattern = seq![c];
    assert(pattern.drop_first() =~= Seq::empty());
    reveal_with_fuel(wild_matches, 2);
    if input.len() > 0 {
        what_one_character_matches(c, input.drop_first());
        if c != '*' && c != '?' {
            if input.len() == 1 && input[0] == c {
                assert(input =~= seq![c]);
            }
        }
    }
}

} // verus!
