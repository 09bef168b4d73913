//! What a session gives back of what came over its channel.
use crate::ssh::{
    challenge_bytes, challenge_fits, exec_gives, exec_run, hash_chosen, login_next, login_step, prompt_bytes,
    route_of, AgentBackend, AgentLoginStep, AgentRoute, ChannelEvent, ExecResult, IdentityOutcome,
    KeyboardInteractiveChallenge, KeyboardInteractivePrompt, Platform, RsaHash, SshError,
};
use crate::text::utf8;
use vstd::prelude::*;

verus! {

/// The output among some events, joined in the order in which it came.
pub open spec fn output_in(events: Seq<ChannelEvent>) -> Seq<u8>
    decreases events.len(),
{
    if events.len() == 0 {
        Seq::empty()
    } else {
        match events[0] {
            ChannelEvent::Output(data) => data@ + output_in(events.skip(1)),
            _ => output_in(events.skip(1)),
        }
    }
}

/// The error output among some events, joined in the order in which it came.
pub open spec fn errors_in(events: Seq<ChannelEvent>) -> Seq<u8>
    decreases events.len(),
{
    if events.len() == 0 {
        Seq::empty()
    } else {
        match events[0] {
            ChannelEvent::ErrorOutput(data) => data@ + errors_in(events.skip(1)),
            _ => errors_in(events.skip(1)),
        }
    }
}

/// The channel was closed, or both a status and the end of the output came.
pub open spec fn has_ended(events: Seq<ChannelEvent>) -> bool {
    ||| exists|i: int| 0 <= i < events.len() && (#[trigger] events[i]) is Close
    ||| (exists|i: int| 0 <= i < events.len() && (#[trigger] events[i]) is ExitStatus) && (exists|
        j: int,
    |
        0 <= j < events.len() && (#[trigger] events[j]) is Eof)
}

/// The event at `at` is the last one that brought a status.
pub open spec fn last_status(events: Seq<ChannelEvent>, at: int) -> bool {
    &&& 0 <= at < events.len()
    &&& events[at] is ExitStatus
    &&& forall|j: int| at < j < events.len() ==> !((#[trigger] events[j]) is ExitStatus)
}

proof fn lemma_joined_at_the_end(events: Seq<ChannelEvent>, event: ChannelEvent)
    ensures
        output_in(events.push(event)) == output_in(events) + match event {
            ChannelEvent::Output(data) => data@,
            _ => Seq::empty(),
        },
        errors_in(events.push(event)) == errors_in(events) + match event {
            ChannelEvent::ErrorOutput(data) => data@,
            _ => Seq::empty(),
        },
    decreases events.len(),
{
    let all = events.push(event);
    if events.len() == 0 {
        assert(all.skip(1) =~= Seq::empty());
        assert(output_in(all.skip(1)) =~= Seq::<u8>::empty());
        assert(errors_in(all.skip(1)) =~= Seq::<u8>::empty());
        assert(output_in(all) =~= output_in(events) + match event {
            ChannelEvent::Output(data) => data@,
            _ => Seq::empty(),
        });
        assert(errors_in(all) =~= errors_in(events) + match event {
            ChannelEvent::ErrorOutput(data) => data@,
            _ => Seq::empty(),
        });
    } else {
        assert(all.skip(1) =~= events.skip(1).push(event));
        lemma_joined_at_the_end(events.skip(1), event);
        assert(output_in(all) =~= output_in(events) + match event {
            ChannelEvent::Output(data) => data@,
            _ => Seq::empty(),
        });
        assert(errors_in(all) =~= errors_in(events) + match event {
            ChannelEvent::ErrorOutput(data) => data@,
            _ => Seq::empty(),
        });
    }
}

/// While a command is not over, all that its channel brought has been kept: the
/// output and the error output apart, each whole and in order, and the status
/// that came last. It is over as soon as its channel is closed or both a status
/// and the end of the output have come, in whichever order.
pub proof fn law_command_keeps_all_that_came(events: Seq<ChannelEvent>)
    requires
        forall|k: int| 0 <= k < events.len() ==> !has_ended(#[trigger] events.take(k)),
    ensures
        exec_run(events).stdout == output_in(events),
        exec_run(events).stderr == errors_in(events),
        exec_run(events).over <==> has_ended(events),
        exec_run(events).status is Some <==> exists|i: int|
            0 <= i < events.len() && (#[trigger] events[i]) is ExitStatus,
        forall|at: int| #[trigger]
            last_status(events, at) ==> exec_run(events).status == Some(events[at]->ExitStatus_0),
        exec_run(events).eof <==> exists|i: int|
            0 <= i < events.len() && (#[trigger] events[i]) is Eof,
    decreases events.len(),
{
    if events.len() > 0 {
        let front = events.drop_last();
        let last = events.last();
        let count = front.len() as int;
        assert(events.take(count) =~= front);
        assert(!has_ended(front));
        assert forall|k: int| 0 <= k < front.len() implies !has_ended(#[trigger] front.take(k)) by {
            assert(front.take(k) =~= events.take(k));
        }
        law_command_keeps_all_that_came(front);
        assert(front.push(last) =~= events);
        lemma_joined_at_the_end(front, last);
        assert(events[count] == last);
        assert forall|i: int| 0 <= i < count implies events[i] == front[i] by {}
        let model = exec_run(front);
        let after = exec_run(events);
        assert(after.status is Some <==> exists|i: int|
            0 <= i < events.len() && (#[trigger] events[i]) is ExitStatus) by {
            if model.status is Some {
                let i = choose|i: int|
                    0 <= i < front.len() && (#[trigger] front[i]) is ExitStatus;
                assert(events[i] is ExitStatus);
            }
            if exists|i: int| 0 <= i < events.len() && (#[trigger] events[i]) is ExitStatus {
                let i = choose|i: int|
                    0 <= i < events.len() && (#[trigger] events[i]) is ExitStatus;
                if i < count {
                    assert(front[i] is ExitStatus);
                }
            }
        }
        assert(after.eof <==> exists|i: int|
            0 <= i < events.len() && (#[trigger] events[i]) is Eof) by {
            if model.eof {
                let i = choose|i: int| 0 <= i < front.len() && (#[trigger] front[i]) is Eof;
                assert(events[i] is Eof);
            }
            if exists|i: int| 0 <= i < events.len() && (#[trigger] events[i]) is Eof {
                let i = choose|i: int| 0 <= i < events.len() && (#[trigger] events[i]) is Eof;
                if i < count {
                    assert(front[i] is Eof);
                }
            }
        }
        assert(after.over <==> has_ended(events)) by {
            if exists|i: int| 0 <= i < events.len() && (#[trigger] events[i]) is Close {
                let i = choose|i: int| 0 <= i < events.len() && (#[trigger] events[i]) is Close;
                if i < count {
                    assert(front[i] is Close);
                }
            }
        }
        assert forall|at: int| #[trigger] last_status(events, at) implies after.status == Some(
            events[at]->ExitStatus_0,
        ) by {
            if at < count {
                assert(!(events[count] is ExitStatus));
                assert forall|j: int| at < j < front.len() implies !((
                #[trigger] front[j]) is ExitStatus) by {
                    assert(!(events[j] is ExitStatus));
                }
                assert(last_status(front, at));
            }
        }
    }
}

/// A command that is over takes nothing more: what comes after that changes
/// nothing of what it gave.
pub proof fn law_ended_command_takes_nothing_more(
    events: Seq<ChannelEvent>,
    more: Seq<ChannelEvent>,
)
    requires
        exec_run(events).over,
    ensures
        exec_run(events + more) == exec_run(events),
    decreases more.len(),
{
    if more.len() == 0 {
        assert(events + more =~= events);
    } else {
        law_ended_command_takes_nothing_more(events, more.drop_last());
        assert((events + more).drop_last() =~= events + more.drop_last());
    }
}

/// A command gives the output and the error output that came before it was
/// over and the last status; it fails if and only if no status came.
pub proof fn law_command_gives_what_came(
    events: Seq<ChannelEvent>,
    result: Result<ExecResult, SshError>,
)
    requires
        forall|k: int| 0 <= k < events.len() ==> !has_ended(#[trigger] events.take(k)),
        exec_gives(exec_run(events), result),
    ensures
        result is Ok <==> exists|i: int|
            0 <= i < events.len() && (#[trigger] events[i]) is ExitStatus,
        result matches Ok(result) ==> {
            &&& result.stdout@ == output_in(events)
            &&& result.stderr@ == errors_in(events)
            &&& forall|at: int| #[trigger]
                last_status(events, at) ==> events[at]->ExitStatus_0 == result.exit_status
        },
        result matches Err(error) ==> error is MissingExitStatus,
{
    law_command_keeps_all_that_came(events);
}

// ---------------------------------------------------------------------------
// Logging in.

/// How many keys of an agent have been tried or passed over, and whether the
/// last one was accepted, after these outcomes.
pub open spec fn login_run(outcomes: Seq<IdentityOutcome>) -> (int, bool)
    decreases outcomes.len(),
{
    if outcomes.len() == 0 {
        (0, false)
    } else {
        login_next(login_run(outcomes.drop_last()).0, outcomes.last())
    }
}

/// The keys of an agent are tried one after the other, from the first on, until
/// one is accepted; the login is rejected only after every one of them.
pub proof fn law_keys_are_tried_in_order(count: usize, outcomes: Seq<IdentityOutcome>)
    requires
        outcomes.len() <= count,
        forall|i: int|
            0 <= i < outcomes.len() - 1 ==> #[trigger] outcomes[i] != IdentityOutcome::Accepted,
    ensures
        ({
            let (tried, accepted) = login_run(outcomes);
            let step = login_step(count as int, tried, accepted);
            let taken = exists|i: int|
                0 <= i < outcomes.len() && #[trigger] outcomes[i] == IdentityOutcome::Accepted;
            &&& step == AgentLoginStep::LoggedIn <==> taken
            &&& step == AgentLoginStep::Rejected <==> !taken && outcomes.len() == count
            &&& !taken && outcomes.len() < count ==> step == AgentLoginStep::Try(
                outcomes.len() as usize,
            )
        }),
    decreases outcomes.len(),
{
    if outcomes.len() > 0 {
        let front = outcomes.drop_last();
        assert forall|i: int| 0 <= i < front.len() - 1 implies #[trigger] front[i]
            != IdentityOutcome::Accepted by {
            assert(outcomes[i] != IdentityOutcome::Accepted);
        }
        law_keys_are_tried_in_order(count, front);
        lemma_login_count(front);
        let last = outcomes.len() - 1;
        assert(outcomes.last() == outcomes[last]);
    }
}

proof fn lemma_login_count(outcomes: Seq<IdentityOutcome>)
    ensures
        login_run(outcomes).0 == outcomes.len(),
    decreases outcomes.len(),
{
    if outcomes.len() > 0 {
        lemma_login_count(outcomes.drop_last());
    }
}

/// An RSA key always signs with a hash, and never with the one of old: with the
/// best that the server takes, and with the strongest where the server says
/// nothing. Other keys need no hash, whatever the server says.
pub proof fn law_rsa_keys_sign_with_modern_hashes(offered: Option<Option<RsaHash>>, best: RsaHash)
    ensures
        hash_chosen(true, offered) != Some(None::<RsaHash>),
        hash_chosen(true, None) == Some(Some(RsaHash::Sha512)),
        hash_chosen(true, Some(Some(best))) == Some(Some(best)),
        hash_chosen(true, offered) is None <==> offered == Some(None::<RsaHash>),
        hash_chosen(false, offered) == Some(None::<RsaHash>),
{
}

/// Pageant is an agent of Windows alone, the OpenSSH agent is reached on both
/// systems, each in its own way, and where the choice is left open every agent
/// that the system has is looked for. Nothing is reached on other systems.
pub proof fn law_agents_of_platforms(backend: AgentBackend, platform: Platform)
    ensures
        route_of(AgentBackend::Pageant, platform) is Some <==> platform == Platform::Windows,
        route_of(AgentBackend::OpenSsh, platform) is Some <==> platform != Platform::Other,
        route_of(AgentBackend::Auto, platform) is Some <==> platform != Platform::Other,
        route_of(backend, Platform::Unix) matches Some(route) ==> route == AgentRoute::Environment,
        route_of(backend, Platform::Windows) != Some(AgentRoute::Environment),
        route_of(AgentBackend::Pageant, Platform::Windows) == Some(AgentRoute::Pageant),
        route_of(AgentBackend::OpenSsh, Platform::Windows) == Some(AgentRoute::Pipe),
        route_of(AgentBackend::Auto, Platform::Windows) == Some(AgentRoute::PipeOrPageant),
{
}

/// Every byte that a challenge shows counts against its limit: those of its
/// name, of its instructions and of each of its prompts.
pub proof fn law_every_byte_of_a_challenge_counts(
    challenge: KeyboardInteractiveChallenge,
    longer: KeyboardInteractiveChallenge,
    prompt: KeyboardInteractivePrompt,
)
    requires
        longer.name == challenge.name,
        longer.instructions == challenge.instructions,
        longer.prompts@ == challenge.prompts@.push(prompt),
    ensures
        challenge_bytes(longer) == challenge_bytes(challenge) + utf8(prompt.text@).len(),
        challenge.prompts@.len() == 0 ==> challenge_bytes(challenge) == utf8(
            challenge.name@,
        ).len() + utf8(challenge.instructions@).len(),
{
    assert(longer.prompts@.drop_last() =~= challenge.prompts@);
    assert(prompt_bytes(longer.prompts@) == prompt_bytes(challenge.prompts@) + utf8(
        prompt.text@,
    ).len());
}

/// A challenge may have up to 32 prompts and show up to 16 KiB of text.
pub proof fn law_limits_of_a_challenge(challenge: KeyboardInteractiveChallenge)
    ensures
        challenge_fits(challenge) <==> challenge.prompts@.len() <= 32 && challenge_bytes(challenge)
            <= 16 * 1024,
{
}

} // verus!
