//! The declarative test specification: actions keyed by tick.

use vstd::prelude::*;
use crate::text::{push_char};

verus! {

/// A block identifier with the state properties it is expected to carry,
/// each as a name and a value.
#[derive(Clone, Debug)]
pub struct BlockSpec {
    pub id: String,
    pub properties: Vec<(String, String)>,
}

/// One block of a burst placement.
#[derive(Clone, Debug)]
pub struct Placement {
    pub pos: [i32; 3],
    pub block: BlockSpec,
}

/// One expectation of an assertion: the block expected at a position.
#[derive(Clone, Debug)]
pub struct BlockCheck {
    pub pos: [i32; 3],
    pub expected: BlockSpec,
}

/// What an action does.
#[derive(Clone, Debug)]
pub enum ActionType {
    Place { pos: [i32; 3], block: BlockSpec },
    PlaceEach { blocks: Vec<Placement> },
    Fill { from: [i32; 3], to: [i32; 3], with: BlockSpec },
    Remove { pos: [i32; 3] },
    Assert { checks: Vec<BlockCheck> },
}

/// An action and the tick at which it fires.
#[derive(Clone, Debug)]
pub struct Action {
    pub tick: u32,
    pub action_type: ActionType,
}

/// A region cleared to air before and after a run.
#[derive(Clone, Copy, Debug)]
pub struct CleanupSpec {
    pub from: [i32; 3],
    pub to: [i32; 3],
}

/// A named test: its actions in declaration order and an optional region to
/// clear around the run.
#[derive(Clone, Debug)]
pub struct TestSpec {
    pub name: String,
    pub description: Option<String>,
    pub actions: Vec<Action>,
    pub cleanup: Option<CleanupSpec>,
}

/// The largest tick among `actions`, or 0 when there are none.
pub open spec fn last_tick(actions: Seq<Action>) -> nat
    decreases actions.len(),
{
    if actions.len() == 0 {
        0
    } else {
        let rest = last_tick(actions.drop_last());
        if actions.last().tick as nat > rest {
            actions.last().tick as nat
        } else {
            rest
        }
    }
}

/// `last_tick` bounds every tick and, when there are actions, is one of them.
pub proof fn lemma_last_tick_is_max(actions: Seq<Action>)
    ensures
        forall|i: int| 0 <= i < actions.len() ==> #[trigger] actions[i].tick <= last_tick(actions),
        actions.len() > 0 ==> exists|i: int|
            0 <= i < actions.len() && #[trigger] actions[i].tick == last_tick(actions),
        actions.len() == 0 ==> last_tick(actions) == 0,
        last_tick(actions) <= u32::MAX,
    decreases actions.len(),
{
    if actions.len() > 0 {
        let rest = actions.drop_last();
        lemma_last_tick_is_max(rest);
        assert forall|i: int| 0 <= i < actions.len() implies #[trigger] actions[i].tick
            <= last_tick(actions) by {
            if i < rest.len() {
                assert(actions[i] == rest[i]);
            }
        }
        if actions.last().tick as nat <= last_tick(rest) && rest.len() > 0 {
            let j = choose|j: int| 0 <= j < rest.len() && #[trigger] rest[j].tick == last_tick(rest);
            assert(actions[j] == rest[j]);
        }
    }
}

impl TestSpec {
    /// The last tick of the timeline: the largest action tick, or 0 when the
    /// test has no actions.
    pub fn max_tick(&self) -> (r: u32)
        ensures
            r as nat == last_tick(self.actions@),
    {
        let mut r: u32 = 0;
        let mut i: usize = 0;
        while i < self.actions.len()
            invariant
                i <= self.actions@.len(),
                r as nat == last_tick(self.actions@.subrange(0, i as int)),
            decreases self.actions.len() - i,
        {
            assert(self.actions@.subrange(0, i + 1).drop_last() =~= self.actions@.subrange(
                0,
                i as int,
            ));
            if self.actions[i].tick > r {
                r = self.actions[i].tick;
            }
            i = i + 1;
        }
        assert(self.actions@.subrange(0, i as int) =~= self.actions@);
        r
    }
}

/// The text of `props` as `name=value` pairs joined by commas.
pub open spec fn properties_text(props: Seq<(Seq<char>, Seq<char>)>) -> Seq<char>
    decreases props.len(),
{
    if props.len() == 0 {
        seq![]
    } else if props.len() == 1 {
        props[0].0 + seq!['='] + props[0].1
    } else {
        properties_text(props.drop_last()) + seq![','] + props.last().0 + seq!['='] + props.last().1
    }
}

/// The command form of a block: its identifier, followed by its properties in
/// brackets when it has any (`oak_stairs[facing=north,half=top]`).
pub open spec fn block_text(id: Seq<char>, props: Seq<(Seq<char>, Seq<char>)>) -> Seq<char> {
    if props.len() == 0 {
        id
    } else {
        id + seq!['['] + properties_text(props) + seq![']']
    }
}

impl BlockSpec {
    /// The properties as pairs of character sequences.
    pub open spec fn props_view(&self) -> Seq<(Seq<char>, Seq<char>)> {
        self.properties@.map_values(|p: (String, String)| (p.0@, p.1@))
    }

    /// The block as written in a placement command.
    pub fn to_command(&self) -> (r: String)
        ensures
            r@ == block_text(self.id@, self.props_view()),
    {
        let mut r = self.id.clone();
        assert(r@ == self.id@);
        let n = self.properties.len();
        if n == 0 {
            return r;
        }
        push_char(&mut r, '[');
        let ghost pv = self.props_view();
        let mut i: usize = 0;
        while i < n
            invariant
                n == self.properties@.len(),
                n > 0,
                pv == self.props_view(),
                i <= n,
                r@ == self.id@ + seq!['['] + properties_text(pv.subrange(0, i as int)),
            decreases n - i,
        {
            let ghost before = r@;
            assert(pv.subrange(0, i + 1).drop_last() =~= pv.subrange(0, i as int));
            assert(pv.subrange(0, i + 1).last() == pv[i as int]);
            if i > 0 {
                push_char(&mut r, ',');
            }
            let name = self.properties[i].0.clone();
            let value = self.properties[i].1.clone();
            r.append(name.as_str());
            push_char(&mut r, '=');
            r.append(value.as_str());
            proof {
                let ps = pv.subrange(0, i + 1);
                if i == 0 {
                    assert(properties_text(pv.subrange(0, 0)) =~= seq![]);
                    assert(r@ =~= self.id@ + seq!['['] + properties_text(ps));
                } else {
                    assert(r@ =~= self.id@ + seq!['['] + properties_text(ps));
                }
            }
            i = i + 1;
        }
        push_char(&mut r, ']');
        assert(pv.subrange(0, n as int) =~= pv);
        assert(r@ =~= block_text(self.id@, pv));
        r
    }
}

} // verus!
