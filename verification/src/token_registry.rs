use std::sync::atomic::AtomicBool;
use std::sync::Arc;
use vstd::prelude::*;

use crate::cancellation::CancellationToken;
use crate::diagnostic::{decimal, push_decimal};
use crate::scope::equal_to_literal;
use crate::strings::{chars_of, extend_chars, string_from_chars};

verus! {

// The registry of cancellation tokens a host hands out by name: a token is
// created under a fresh name, cancelled or looked up by that name, and
// released when the host no longer needs it.

/// The name of the `n`-th token created.
pub open spec fn token_name(n: nat) -> Seq<char> {
    "cancel-"@ + decimal(n)
}

/// The message for a name that names no live token.
pub open spec fn unknown_token_message(id: Seq<char>) -> Seq<char> {
    "unknown cancellation token `"@ + id + "`"@
}

/// Live tokens, each under the number its name was made from.
pub struct CancellationRegistry {
    next_id: u64,
    entries: Vec<(u64, CancellationToken)>,
}

impl CancellationRegistry {
    /// The names of the live tokens, in the order they were created.
    pub closed spec fn names(&self) -> Seq<Seq<char>> {
        self.entries@.map_values(|e: (u64, CancellationToken)| token_name(e.0 as nat))
    }

    /// The live tokens, each as its name and its shared flag, in the order
    /// they were created.
    pub closed spec fn live(&self) -> Seq<(Seq<char>, Arc<AtomicBool>)> {
        self.entries@.map_values(
            |e: (u64, CancellationToken)| (token_name(e.0 as nat), e.1.shared_state()),
        )
    }

    /// The number the next token's name is made from.
    pub closed spec fn next_number(&self) -> nat {
        self.next_id as nat
    }

    /// `id` names a live token.
    pub open spec fn registered(&self, id: Seq<char>) -> bool {
        self.names().contains(id)
    }

    /// An empty registry whose first token will be `cancel-1`.
    pub fn new() -> (r: CancellationRegistry)
        ensures
            r.names() == Seq::<Seq<char>>::empty(),
            r.live() == Seq::<(Seq<char>, Arc<AtomicBool>)>::empty(),
            r.next_number() == 1,
    {
        let r = CancellationRegistry { next_id: 1, entries: Vec::new() };
        assert(r.names() =~= Seq::<Seq<char>>::empty());
        assert(r.live() =~= Seq::<(Seq<char>, Arc<AtomicBool>)>::empty());
        r
    }

    /// Whether another token can still be given a fresh number.
    pub fn can_create(&self) -> (b: bool)
        ensures
            b == (self.next_number() < u64::MAX),
    {
        self.next_id < u64::MAX
    }

    /// The position of the first live token named `id`.
    fn find(&self, id: &str) -> (r: Option<usize>)
        ensures
            r is None <==> !self.registered(id@),
            r matches Some(i) ==> i < self.entries@.len() && self.names()[i as int] == id@
                && self.live()[i as int].0 == id@ && (forall|k: int|
                0 <= k < i ==> self.live()[k].0 != id@),
    {
        let mut i: usize = 0;
        while i < self.entries.len()
            invariant
                i <= self.entries.len(),
                forall|k: int| 0 <= k < i ==> self.names()[k] != id@,
            decreases self.entries.len() - i,
        {
            let name = token_name_string(self.entries[i].0);
            if equal_to_literal(name.as_str(), id) {
                assert(self.names()[i as int] == id@);
                assert(self.live()[i as int].0 == self.names()[i as int]);
                assert forall|k: int| 0 <= k < i implies self.live()[k].0 != id@ by {
                    assert(self.live()[k].0 == self.names()[k]);
                }
                return Some(i);
            }
            i += 1;
        }
        proof {
            if self.registered(id@) {
                let k = choose|k: int| 0 <= k < self.names().len() && self.names()[k] == id@;
                assert(self.names()[k] != id@);
            }
        }
        None
    }
}

/// `cancel-` followed by the decimal digits of `n`.
fn token_name_string(n: u64) -> (s: String)
    ensures
        s@ == token_name(n as nat),
{
    let mut chars = chars_of("cancel-");
    push_decimal(&mut chars, n);
    string_from_chars(&chars)
}

fn unknown_token_error(id: &str) -> (message: String)
    ensures
        message@ == unknown_token_message(id@),
{
    let mut chars = chars_of("unknown cancellation token `");
    extend_chars(&mut chars, &chars_of(id));
    extend_chars(&mut chars, &chars_of("`"));
    string_from_chars(&chars)
}

/// Creates a token that is not cancelled and registers it under a fresh
/// name, `cancel-` and the next number; the name is returned.
pub fn create_cancellation_token(registry: &mut CancellationRegistry) -> (id: String)
    requires
        old(registry).next_number() < u64::MAX,
    ensures
        id@ == token_name(old(registry).next_number()),
        final(registry).names() == old(registry).names().push(id@),
        final(registry).live().drop_last() == old(registry).live(),
        final(registry).live().last().0 == id@,
        final(registry).next_number() == old(registry).next_number() + 1,
{
    let n = registry.next_id;
    registry.next_id = n + 1;
    registry.entries.push((n, CancellationToken::new()));
    let id = token_name_string(n);
    assert(registry.names() =~= old(registry).names().push(id@));
    assert(registry.live().drop_last() =~= old(registry).live());
    id
}

/// Cancels the token named `token_id`; a name that names no live token is
/// refused.
pub fn cancel_cancellation_token(registry: &CancellationRegistry, token_id: &str) -> (r: Result<(), String>)
    ensures
        r is Ok <==> registry.registered(token_id@),
        r matches Err(message) ==> message@ == unknown_token_message(token_id@),
{
    match registry.find(token_id) {
        Some(i) => {
            registry.entries[i].1.cancel();
            Ok(())
        },
        None => Err(unknown_token_error(token_id)),
    }
}

/// Forgets the token named `token_id`, if it is live; every other token
/// stays, in order.
pub fn release_cancellation_token(registry: &mut CancellationRegistry, token_id: &str)
    ensures
        final(registry).names() == old(registry).names().filter(|n: Seq<char>| n != token_id@),
        final(registry).live() == old(registry).live().filter(
            |e: (Seq<char>, Arc<AtomicBool>)| e.0 != token_id@,
        ),
        final(registry).next_number() == old(registry).next_number(),
{
    let ghost f = |n: Seq<char>| n != token_id@;
    let ghost g = |e: (Seq<char>, Arc<AtomicBool>)| e.0 != token_id@;
    let ghost names = old(registry).names();
    let ghost live = old(registry).live();
    let mut kept: Vec<(u64, CancellationToken)> = Vec::new();
    let mut i: usize = 0;
    while i < registry.entries.len()
        invariant
            i <= registry.entries.len(),
            *registry == *old(registry),
            names == old(registry).names(),
            f == (|n: Seq<char>| n != token_id@),
            g == (|e: (Seq<char>, Arc<AtomicBool>)| e.0 != token_id@),
            live == old(registry).live(),
            kept@.map_values(
                |e: (u64, CancellationToken)| (token_name(e.0 as nat), e.1.shared_state()),
            ) == live.take(i as int).filter(g),
            kept@.map_values(|e: (u64, CancellationToken)| token_name(e.0 as nat)) == names.take(
                i as int,
            ).filter(f),
        decreases registry.entries.len() - i,
    {
        let ghost prev = kept@;
        let number = registry.entries[i].0;
        let name = token_name_string(number);
        let drop_it = equal_to_literal(name.as_str(), token_id);
        if !drop_it {
            kept.push((number, registry.entries[i].1.share()));
        }
        proof {
            let t = names.take(i + 1);
            assert(t =~= names.take(i as int).push(names[i as int]));
            names.take(i as int).lemma_filter_push(names[i as int], f);
            assert(names[i as int] == name@);
            assert(kept@.map_values(|e: (u64, CancellationToken)| token_name(e.0 as nat)) =~= t.filter(f));
            let u = live.take(i + 1);
            assert(u =~= live.take(i as int).push(live[i as int]));
            live.take(i as int).lemma_filter_push(live[i as int], g);
            assert(live[i as int].0 == name@);
            assert(kept@.map_values(
                |e: (u64, CancellationToken)| (token_name(e.0 as nat), e.1.shared_state()),
            ) =~= u.filter(g));
        }
        i += 1;
    }
    proof {
        assert(names.take(names.len() as int) =~= names);
        assert(live.take(live.len() as int) =~= live);
    }
    registry.entries = kept;
}

/// The token named `token_id`, when one is given: `None` when none is
/// given, and a refusal when the name names no live token.
pub fn lookup_cancellation_token(registry: &CancellationRegistry, token_id: Option<String>) -> (r: Result<
    Option<CancellationToken>,
    String,
>)
    ensures
        token_id is None ==> r == Ok::<Option<CancellationToken>, String>(None),
        token_id matches Some(id) ==> (r is Ok <==> registry.registered(id@)),
        token_id matches Some(id) && r is Ok ==> r->Ok_0 is Some,
        match (token_id, r) {
            (Some(id), Ok(Some(t))) => exists|i: int|
                0 <= i < registry.live().len() && #[trigger] registry.live()[i].0 == id@ && (forall|
                    k: int,
                | 0 <= k < i ==> registry.live()[k].0 != id@) && registry.live()[i].1
                    == t.shared_state(),
            _ => true,
        },
        token_id matches Some(id) ==> (r matches Err(message) ==> message@ == unknown_token_message(id@)),
{
    match token_id {
        None => Ok(None),
        Some(id) => match registry.find(id.as_str()) {
            Some(i) => {
                let t = registry.entries[i].1.share();
                assert(registry.live()[i as int].1 == t.shared_state());
                assert(registry.live()[i as int].0 == id@);
                Ok(Some(t))
            },
            None => Err(unknown_token_error(id.as_str())),
        },
    }
}

/// A token just created can be found under its name, and cancelled by it.
pub proof fn law_created_token_is_registered(before: CancellationRegistry, after: CancellationRegistry, id: Seq<char>)
    requires
        after.names() == before.names().push(id),
    ensures
        after.registered(id),
{
    assert(after.names()[before.names().len() as int] == id);
}

/// Once released, a name no longer names a live token, and every other
/// name is as live as it was.
pub proof fn law_released_token_is_unknown(
    before: CancellationRegistry,
    after: CancellationRegistry,
    id: Seq<char>,
    other: Seq<char>,
)
    requires
        after.names() == before.names().filter(|n: Seq<char>| n != id),
    ensures
        !after.registered(id),
        other != id ==> (after.registered(other) == before.registered(other)),
{
    let f = |n: Seq<char>| n != id;
    broadcast use vstd::seq_lib::group_filter_ensures;

    if after.registered(id) {
        let k = choose|k: int| 0 <= k < after.names().len() && after.names()[k] == id;
        assert(f(after.names()[k]));
    }
    if other != id && before.registered(other) {
        let k = choose|k: int| 0 <= k < before.names().len() && before.names()[k] == other;
        assert(f(before.names()[k]));
        assert(before.names().filter(f).contains(before.names()[k]));
    }
    if other != id && after.registered(other) {
        before.names().lemma_filter_contains_rev(f, other);
    }
}

} // verus!
