//! Declarative actions turned into server commands, and the judgement
//! of assertion checks against observed block state.

use vstd::prelude::*;
use crate::matching::{block_matches, ids_match, property_holds, property_matches};
use crate::test_spec::{block_text, ActionType, BlockCheck, BlockSpec, CleanupSpec, Placement};
use crate::text::{int_text, push_char, push_int, push_str};

verus! {

/// Whether every coordinate of `pos` shifted by `offset` fits an `i32`.
pub open spec fn offset_fits(pos: [i32; 3], offset: [i32; 3]) -> bool {
    forall|k: int|
        0 <= k < 3 ==> i32::MIN <= #[trigger] pos@[k] + offset@[k] <= i32::MAX
}

/// Shifts a declared position into world space.
pub fn apply_offset(pos: [i32; 3], offset: [i32; 3]) -> (r: [i32; 3])
    requires
        offset_fits(pos, offset),
    ensures
        forall|k: int| 0 <= k < 3 ==> #[trigger] r@[k] == pos@[k] + offset@[k],
{
    assert(i32::MIN <= pos@[0] + offset@[0] <= i32::MAX);
    assert(i32::MIN <= pos@[1] + offset@[1] <= i32::MAX);
    assert(i32::MIN <= pos@[2] + offset@[2] <= i32::MAX);
    let r = [pos[0] + offset[0], pos[1] + offset[1], pos[2] + offset[2]];
    assert forall|k: int| 0 <= k < 3 implies #[trigger] r@[k] == pos@[k] + offset@[k] by {
        if k == 0 {
        } else if k == 1 {
        } else {
        }
    }
    r
}

/// The text of a world position shifted by `offset`: three integers
/// separated by spaces.
pub open spec fn coords_text(pos: [i32; 3], offset: [i32; 3]) -> Seq<char> {
    int_text(pos@[0] + offset@[0]) + seq![' '] + int_text(pos@[1] + offset@[1]) + seq![' ']
        + int_text(pos@[2] + offset@[2])
}

/// `setblock x y z block`.
pub open spec fn setblock_text(pos: [i32; 3], offset: [i32; 3], block: Seq<char>) -> Seq<char> {
    "setblock "@ + coords_text(pos, offset) + seq![' '] + block
}

/// `fill x1 y1 z1 x2 y2 z2 block`.
pub open spec fn fill_text(from: [i32; 3], to: [i32; 3], offset: [i32; 3], block: Seq<char>) -> Seq<
    char,
> {
    "fill "@ + coords_text(from, offset) + seq![' '] + coords_text(to, offset) + seq![' '] + block
}

/// The command form of a block specification.
pub open spec fn spec_block_text(b: BlockSpec) -> Seq<char> {
    block_text(b.id@, b.props_view())
}

/// Whether every position that `action` names can be shifted by `offset`.
pub open spec fn action_fits(action: ActionType, offset: [i32; 3]) -> bool {
    match action {
        ActionType::Place { pos, .. } => offset_fits(pos, offset),
        ActionType::PlaceEach { blocks } => forall|i: int|
            0 <= i < blocks@.len() ==> offset_fits(#[trigger] blocks@[i].pos, offset),
        ActionType::Fill { from, to, .. } => offset_fits(from, offset) && offset_fits(to, offset),
        ActionType::Remove { pos } => offset_fits(pos, offset),
        ActionType::Assert { checks } => forall|i: int|
            0 <= i < checks@.len() ==> offset_fits(#[trigger] checks@[i].pos, offset),
    }
}

/// The commands that carry out `action`, in order; an assertion sends none.
pub open spec fn action_commands(action: ActionType, offset: [i32; 3]) -> Seq<Seq<char>> {
    match action {
        ActionType::Place { pos, block } => seq![setblock_text(pos, offset, spec_block_text(block))],
        ActionType::PlaceEach { blocks } => blocks@.map_values(
            |p: Placement| setblock_text(p.pos, offset, spec_block_text(p.block)),
        ),
        ActionType::Fill { from, to, with } => seq![
            fill_text(from, to, offset, spec_block_text(with)),
        ],
        ActionType::Remove { pos } => seq![setblock_text(pos, offset, "air"@)],
        ActionType::Assert { .. } => seq![],
    }
}

fn push_coords(s: &mut String, pos: [i32; 3], offset: [i32; 3])
    requires
        offset_fits(pos, offset),
    ensures
        final(s)@ == old(s)@ + coords_text(pos, offset),
{
    let w = apply_offset(pos, offset);
    assert(w@[0] == pos@[0] + offset@[0]);
    assert(w@[1] == pos@[1] + offset@[1]);
    assert(w@[2] == pos@[2] + offset@[2]);
    push_int(s, w[0]);
    push_char(s, ' ');
    push_int(s, w[1]);
    push_char(s, ' ');
    push_int(s, w[2]);
    assert(final(s)@ =~= old(s)@ + coords_text(pos, offset));
}

/// `setblock` for `block` at `pos` shifted by `offset`.
pub fn setblock_command(pos: [i32; 3], offset: [i32; 3], block: &str) -> (r: String)
    requires
        offset_fits(pos, offset),
    ensures
        r@ == setblock_text(pos, offset, block@),
{
    let mut r = String::from_str("setblock ");
    push_coords(&mut r, pos, offset);
    push_char(&mut r, ' ');
    push_str(&mut r, block);
    assert(r@ =~= setblock_text(pos, offset, block@));
    r
}

/// `fill` of the box from `from` to `to`, both shifted by `offset`, with
/// `block`.
pub fn fill_command(from: [i32; 3], to: [i32; 3], offset: [i32; 3], block: &str) -> (r: String)
    requires
        offset_fits(from, offset),
        offset_fits(to, offset),
    ensures
        r@ == fill_text(from, to, offset, block@),
{
    let mut r = String::from_str("fill ");
    push_coords(&mut r, from, offset);
    push_char(&mut r, ' ');
    push_coords(&mut r, to, offset);
    push_char(&mut r, ' ');
    push_str(&mut r, block);
    assert(r@ =~= fill_text(from, to, offset, block@));
    r
}

/// The command that clears a cleanup region, shifted by `offset`, to air.
pub fn cleanup_command(region: &CleanupSpec, offset: [i32; 3]) -> (r: String)
    requires
        offset_fits(region.from, offset),
        offset_fits(region.to, offset),
    ensures
        r@ == fill_text(region.from, region.to, offset, "air"@),
{
    fill_command(region.from, region.to, offset, "air")
}

/// The commands that carry out a placement, fill or removal, in the order in
/// which they are sent; an assertion yields none.
pub fn commands_for(action: &ActionType, offset: [i32; 3]) -> (r: Vec<String>)
    requires
        action_fits(*action, offset),
    ensures
        r@.map_values(|c: String| c@) == action_commands(*action, offset),
{
    let mut r: Vec<String> = Vec::new();
    match action {
        ActionType::Place { pos, block } => {
            let b = block.to_command();
            r.push(setblock_command(*pos, offset, b.as_str()));
        },
        ActionType::PlaceEach { blocks } => {
            let mut i: usize = 0;
            while i < blocks.len()
                invariant
                    i <= blocks@.len(),
                    forall|j: int|
                        0 <= j < blocks@.len() ==> offset_fits(#[trigger] blocks@[j].pos, offset),
                    r@.map_values(|c: String| c@) == blocks@.subrange(0, i as int).map_values(
                        |p: Placement| setblock_text(p.pos, offset, spec_block_text(p.block)),
                    ),
                decreases blocks.len() - i,
            {
                let b = blocks[i].block.to_command();
                let c = setblock_command(blocks[i].pos, offset, b.as_str());
                let ghost f = |p: Placement| setblock_text(p.pos, offset, spec_block_text(p.block));
                let ghost before = r@.map_values(|c: String| c@);
                r.push(c);
                assert(blocks@.subrange(0, i + 1) =~= blocks@.subrange(0, i as int).push(
                    blocks@[i as int],
                ));
                assert(blocks@.subrange(0, i + 1).map_values(f) =~= blocks@.subrange(
                    0,
                    i as int,
                ).map_values(f).push(f(blocks@[i as int])));
                assert(r@.map_values(|c: String| c@) =~= before.push(c@));
                i = i + 1;
            }
            assert(blocks@.subrange(0, i as int) =~= blocks@);
        },
        ActionType::Fill { from, to, with } => {
            let b = with.to_command();
            r.push(fill_command(*from, *to, offset, b.as_str()));
        },
        ActionType::Remove { pos } => {
            r.push(setblock_command(*pos, offset, "air"));
        },
        ActionType::Assert { .. } => {},
    }
    assert(r@.map_values(|c: String| c@) =~= action_commands(*action, offset));
    r
}

/// Why an assertion check did not hold. Positions are the declared ones,
/// before any offset.
#[derive(Clone, Debug)]
pub enum AssertionFailure {
    /// No block was observed, or the observed one is not the expected block.
    BlockMismatch { pos: [i32; 3], expected: String, observed: Option<String> },
    /// The block matched, but it does not show this property with this value.
    PropertyMismatch { pos: [i32; 3], property: String, expected: String, observed: String },
}

/// The characters of an optional string.
pub open spec fn opt_view(o: Option<String>) -> Option<Seq<char>> {
    match o {
        Some(s) => Some(s@),
        None => None,
    }
}

/// Whether the first `k` expected properties all show in `observed`.
pub open spec fn props_hold_upto(
    observed: Seq<char>,
    props: Seq<(Seq<char>, Seq<char>)>,
    k: int,
) -> bool {
    forall|j: int| 0 <= j < k ==> property_holds(observed, #[trigger] props[j].0, props[j].1)
}

/// Property `k` is the first of `props` that does not show in `observed`.
pub open spec fn first_failing_property(
    observed: Seq<char>,
    props: Seq<(Seq<char>, Seq<char>)>,
    k: int,
) -> bool {
    0 <= k < props.len() && props_hold_upto(observed, props, k) && !property_holds(
        observed,
        props[k].0,
        props[k].1,
    )
}

/// Whether `observed` is the block that `check` expects, in identity and in
/// every property.
pub open spec fn check_holds(check: BlockCheck, observed: Option<Seq<char>>) -> bool {
    match observed {
        Some(o) => ids_match(o, check.expected.id@) && props_hold_upto(
            o,
            check.expected.props_view(),
            check.expected.props_view().len() as int,
        ),
        None => false,
    }
}

fn clone_opt(o: &Option<String>) -> (r: Option<String>)
    ensures
        opt_view(r) == opt_view(*o),
{
    match o {
        Some(s) => Some(s.clone()),
        None => None,
    }
}

/// Judges the final observation at a check's position. A missing or
/// different block fails with `BlockMismatch`; otherwise the first expected
/// property that does not show fails with `PropertyMismatch`; otherwise the
/// check holds.
pub fn check_block(check: &BlockCheck, observed: &Option<String>) -> (r: Result<(), AssertionFailure>)
    ensures
        r is Ok <==> check_holds(*check, opt_view(*observed)),
        (match observed {
            Some(o) => !ids_match(o@, check.expected.id@),
            None => true,
        }) <==> r is Err && r->Err_0 is BlockMismatch,
        r matches Err(AssertionFailure::BlockMismatch { pos, expected, observed: got }) ==> pos
            == check.pos && expected@ == check.expected.id@ && opt_view(got) == opt_view(*observed),
        r matches Err(AssertionFailure::PropertyMismatch { pos, observed: got, .. }) ==> pos
            == check.pos && Some(got@) == opt_view(*observed),
        r is Err && r->Err_0 is PropertyMismatch ==> exists|k: int|
            #[trigger] first_failing_property(
                r->Err_0->PropertyMismatch_observed@,
                check.expected.props_view(),
                k,
            ) && r->Err_0->PropertyMismatch_property@ == check.expected.props_view()[k].0
                && r->Err_0->PropertyMismatch_expected@ == check.expected.props_view()[k].1,
{
    let o = match observed {
        Some(o) => o,
        None => {
            return Err(
                AssertionFailure::BlockMismatch {
                    pos: check.pos,
                    expected: check.expected.id.clone(),
                    observed: None,
                },
            );
        },
    };
    if !block_matches(o.as_str(), check.expected.id.as_str()) {
        return Err(
            AssertionFailure::BlockMismatch {
                pos: check.pos,
                expected: check.expected.id.clone(),
                observed: clone_opt(observed),
            },
        );
    }
    let ghost pv = check.expected.props_view();
    let props = &check.expected.properties;
    let mut i: usize = 0;
    while i < props.len()
        invariant
            i <= props@.len(),
            pv == check.expected.props_view(),
            props == &check.expected.properties,
            props_hold_upto(o@, pv, i as int),
            ids_match(o@, check.expected.id@),
            opt_view(*observed) == Some(o@),
        decreases props.len() - i,
    {
        assert(pv[i as int] == (props@[i as int].0@, props@[i as int].1@));
        if !property_matches(o.as_str(), props[i].0.as_str(), props[i].1.as_str()) {
            let property = props[i].0.clone();
            let expected = props[i].1.clone();
            let got = o.clone();
            let e = AssertionFailure::PropertyMismatch { pos: check.pos, property, expected, observed: got };
            assert(first_failing_property(e->PropertyMismatch_observed@, pv, i as int));
            return Err(e);
        }
        i = i + 1;
    }
    Ok(())
}

/// The progress of an assertion action through its checks, in order. Each
/// check is observed and judged by [`check_block`] and its result recorded
/// here; the first failed check ends the action.
pub struct AssertionRun {
    pub checks: usize,
    pub held: usize,
    pub failure: Option<AssertionFailure>,
    /// The judgements recorded so far, in order.
    pub judged: Ghost<Seq<Result<(), AssertionFailure>>>,
}

impl AssertionRun {
    /// The run is consistent: no more checks held than there are, and a
    /// failure stands at a check that exists.
    pub open spec fn wf(&self) -> bool {
        &&& self.held <= self.checks
        &&& (self.failure is Some ==> self.held < self.checks)
        &&& self.judged@.len() == self.held + if self.failure is Some {
            1int
        } else {
            0int
        }
        &&& forall|k: int| 0 <= k < self.held ==> #[trigger] self.judged@[k] is Ok
        &&& (self.failure matches Some(f) ==> self.judged@[self.held as int] == Err::<
            (),
            AssertionFailure,
        >(f))
    }

    /// Whether the action is decided: a check failed, or all of them held.
    pub open spec fn decided(&self) -> bool {
        self.failure is Some || self.held == self.checks
    }

    /// A run of `checks` checks, none judged yet.
    pub fn new(checks: usize) -> (r: AssertionRun)
        ensures
            r.checks == checks,
            r.held == 0,
            r.failure is None,
            r.judged@ == Seq::<Result<(), AssertionFailure>>::empty(),
            r.wf(),
    {
        AssertionRun { checks, held: 0, failure: None, judged: Ghost(Seq::empty()) }
    }

    /// The index of the check to judge next, or none once decided.
    pub fn next_check(&self) -> (r: Option<usize>)
        requires
            self.wf(),
        ensures
            r == if self.decided() {
                None
            } else {
                Some(self.held)
            },
    {
        if self.failure.is_some() || self.held == self.checks {
            None
        } else {
            Some(self.held)
        }
    }

    /// Records the judgement of the next check.
    pub fn record(&mut self, result: Result<(), AssertionFailure>)
        requires
            old(self).wf(),
            !old(self).decided(),
        ensures
            final(self).wf(),
            final(self).checks == old(self).checks,
            final(self).judged@ == old(self).judged@.push(result),
            match result {
                Ok(()) => final(self).held == old(self).held + 1 && final(self).failure is None,
                Err(f) => final(self).held == old(self).held && final(self).failure == Some(f),
            },
    {
        let ghost judged = self.judged@.push(result);
        self.judged = Ghost(judged);
        match result {
            Ok(()) => {
                self.held = self.held + 1;
            },
            Err(f) => {
                self.failure = Some(f);
            },
        }
        assert(forall|k: int| 0 <= k < old(self).held ==> judged[k] == old(self).judged@[k]);
    }

    /// What the decided action returns: the first failure, or `Ok(true)`
    /// when every check held.
    pub fn outcome(self) -> (r: Result<bool, AssertionFailure>)
        requires
            self.wf(),
            self.decided(),
        ensures
            r == match self.failure {
                Some(f) => Err(f),
                None => Ok::<bool, AssertionFailure>(true),
            },
            r == Ok::<bool, AssertionFailure>(true) <==> self.held == self.checks && self.failure is None,
            r == assertion_outcome(self.judged@),
    {
        proof {
            lemma_outcome_after_held(self.judged@, self.held as int);
        }
        match self.failure {
            Some(f) => Err(f),
            None => Ok(true),
        }
    }
}

/// How an assertion action ends when its checks are judged as `results`
/// says: the first failure, or `Ok(true)` when every check held.
pub open spec fn assertion_outcome(results: Seq<Result<(), AssertionFailure>>) -> Result<bool, AssertionFailure>
    decreases results.len(),
{
    if results.len() == 0 {
        Ok(true)
    } else {
        match results[0] {
            Err(f) => Err(f),
            Ok(()) => assertion_outcome(results.drop_first()),
        }
    }
}

proof fn lemma_outcome_after_held(s: Seq<Result<(), AssertionFailure>>, n: int)
    requires
        0 <= n <= s.len() <= n + 1,
        forall|k: int| 0 <= k < n ==> #[trigger] s[k] is Ok,
    ensures
        s.len() == n ==> assertion_outcome(s) == Ok::<bool, AssertionFailure>(true),
        s.len() == n + 1 && s[n] is Err ==> assertion_outcome(s) == Err::<bool, AssertionFailure>(
            s[n]->Err_0,
        ),
    decreases n,
{
    if n > 0 {
        let rest = s.drop_first();
        assert forall|k: int| 0 <= k < n - 1 implies #[trigger] rest[k] is Ok by {
            assert(rest[k] == s[k + 1]);
        }
        lemma_outcome_after_held(rest, n - 1);
        assert(s[0] is Ok);
    }
}

/// An assertion action passes exactly when every check held, and otherwise
/// returns its first failure, after judging no check past it.
pub proof fn lemma_assertion_outcome(results: Seq<Result<(), AssertionFailure>>)
    ensures
        assertion_outcome(results) is Ok ==> assertion_outcome(results) == Ok::<
            bool,
            AssertionFailure,
        >(true),
        assertion_outcome(results) == Ok::<bool, AssertionFailure>(true) <==> forall|k: int|
            0 <= k < results.len() ==> #[trigger] results[k] is Ok,
        assertion_outcome(results) is Err ==> exists|k: int|
            0 <= k < results.len() && (forall|j: int| 0 <= j < k ==> #[trigger] results[j] is Ok)
                && results[k] == Err::<(), AssertionFailure>(assertion_outcome(results)->Err_0),
    decreases results.len(),
{
    if results.len() > 0 {
        let rest = results.drop_first();
        lemma_assertion_outcome(rest);
        assert forall|k: int| 0 <= k < rest.len() implies rest[k] == results[k + 1] by {}
        if results[0] is Ok {
            if assertion_outcome(rest) is Err {
                let k = choose|k: int|
                    0 <= k < rest.len() && (forall|j: int| 0 <= j < k ==> #[trigger] rest[j] is Ok)
                        && rest[k] == Err::<(), AssertionFailure>(assertion_outcome(rest)->Err_0);
                assert(forall|j: int| 0 <= j < k + 1 ==> #[trigger] results[j] is Ok) by {
                    assert forall|j: int| 0 <= j < k + 1 implies #[trigger] results[j] is Ok by {
                        if j > 0 {
                            assert(results[j] == rest[j - 1]);
                        }
                    }
                }
            } else {
                assert forall|k: int| 0 <= k < results.len() implies #[trigger] results[k] is Ok by {
                    if k > 0 {
                        assert(results[k] == rest[k - 1]);
                    }
                }
            }
        } else {
            assert(!(results[0] is Ok));
        }
    }
}

} // verus!
