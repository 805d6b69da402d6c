use vstd::prelude::*;
use crate::error::ParseError;
use crate::machine::{Mode, ParserModel, initial, parse_spec, run, step, model_wf, lemma_step_wf};

verus! {

/// Reading `a` and then `b` is reading `a + b`.
pub proof fn lemma_run_append(m: ParserModel, a: Seq<char>, b: Seq<char>)
    ensures
        run(m, a + b) == run(run(m, a), b),
    decreases b.len(),
{
    if b.len() == 0 {
        assert(a + b =~= a);
    } else {
        lemma_run_append(m, a, b.drop_last());
        assert((a + b).drop_last() =~= a + b.drop_last());
        assert((a + b).last() == b.last());
    }
}

/// A rejected input stays rejected, whatever follows.
pub proof fn lemma_run_failed(m: ParserModel, s: Seq<char>)
    requires
        m.mode is Failed,
    ensures
        run(m, s) == m,
    decreases s.len(),
{
    if s.len() > 0 {
        lemma_run_failed(m, s.drop_last());
    }
}

/// Whatever the input, the parser holds at most `max_depth` open
/// containers, so its state grows with the nesting limit and not with the
/// input.
pub proof fn open_containers_stay_within_limit(s: Seq<char>, max_depth: nat, max_token_len: nat)
    ensures
        model_wf(run(initial(max_depth, max_token_len), s)),
        run(initial(max_depth, max_token_len), s).max_depth == max_depth,
        run(initial(max_depth, max_token_len), s).stack.len() <= max_depth,
    decreases s.len(),
{
    if s.len() == 0 {
        assert(crate::number::number_run(Seq::<char>::empty()) == Some(
            crate::number::NumberPhase::Start,
        ));
    } else {
        open_containers_stay_within_limit(s.drop_last(), max_depth, max_token_len);
        lemma_step_wf(run(initial(max_depth, max_token_len), s.drop_last()), s.last());
    }
}

/// `k` opening brackets.
pub open spec fn opens(k: nat) -> Seq<char> {
    Seq::new(k, |i: int| '[')
}

proof fn lemma_opens_run(d: nat, max_token_len: nat, k: nat)
    requires
        k <= d,
    ensures
        run(initial(d, max_token_len), opens(k)).stack.len() == k,
        run(initial(d, max_token_len), opens(k)).max_depth == d,
        k == 0 ==> run(initial(d, max_token_len), opens(k)).mode == Mode::Start,
        k > 0 ==> run(initial(d, max_token_len), opens(k)).mode == Mode::FirstElement,
    decreases k,
{
    if k > 0 {
        lemma_opens_run(d, max_token_len, (k - 1) as nat);
        assert(opens(k).drop_last() =~= opens((k - 1) as nat));
        assert(opens(k).last() == '[');
    }
}

/// Containers nested deeper than the limit are rejected with
/// `DepthLimitExceeded`: an input that opens more than `max_depth` arrays in a
/// row gives that error, whatever follows.
pub proof fn depth_limit_is_an_error(s: Seq<char>, max_depth: nat, max_token_len: nat)
    requires
        s.len() > max_depth,
        forall|i: int| 0 <= i <= max_depth ==> s[i] == '[',
    ensures
        parse_spec(s, max_depth, max_token_len) == Err::<crate::value::JValue, ParseError>(
            ParseError::DepthLimitExceeded,
        ),
{
    let d = max_depth;
    lemma_opens_run(d, max_token_len, d);
    let m = run(initial(d, max_token_len), opens(d));
    let m1 = step(m, '[');
    assert(m1.mode == Mode::Failed(ParseError::DepthLimitExceeded));
    assert(opens(d + 1).drop_last() =~= opens(d));
    assert(opens(d + 1).last() == '[');
    assert(run(initial(d, max_token_len), opens(d + 1)) == m1);
    let rest = s.subrange(d + 1 as int, s.len() as int);
    assert(s =~= opens(d + 1) + rest);
    lemma_run_append(initial(d, max_token_len), opens(d + 1), rest);
    lemma_run_failed(m1, rest);
}

} // verus!
