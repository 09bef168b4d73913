//! What is kept on disk: segments, checkpoints, databases.
use crate::cache_swap::{found_behind, swap_next, CacheFiles, CacheSwap, SwapEvent};
use crate::host_laws::{law_number_is_written_in_digits, number_of};
use crate::journal::{RecordModel, Scan};
use crate::migration::{backup_is_good, migration_plan, MigrationPlan, StorageError};
use crate::profiles::{
    agent_backend_of, auth_method_of, bool_of, kind_of, may_commit, ssh_connection_of, ProfileKind,
    SshAgentBackend, SshAuthMethod, SshConnectionRow,
};
use crate::segmented::{
    leading_in_sequence, must_rotate, segment_accepted, segment_mark, zero_padded,
};
use crate::text::decimal_text;
use vstd::prelude::*;

verus! {

// ---------------------------------------------------------------------------
// Segments.

/// A record goes to the next segment exactly where it and its header do not fit
/// into the present one any more, unless the present one is empty.
pub proof fn law_segments_keep_to_their_size(current: u64, max: u64, length: int)
    requires
        0 <= length,
        current + 24 + length <= u64::MAX,
    ensures
        must_rotate(current, max, length) <==> current > 0 && current + 24 + length > max,
        !must_rotate(current, max, length) ==> current == 0 || current + 24 + length <= max,
{
}

proof fn lemma_zero_before(text: Seq<char>)
    ensures
        number_of(seq!['0'] + text) == number_of(text),
    decreases text.len(),
{
    let longer = seq!['0'] + text;
    if text.len() == 0 {
        assert(longer.drop_last() =~= Seq::<char>::empty());
        assert(number_of(longer.drop_last()) == 0);
    } else {
        assert(longer.drop_last() =~= seq!['0'] + text.drop_last());
        lemma_zero_before(text.drop_last());
    }
}

proof fn lemma_zero_padded(text: Seq<char>, width: int)
    ensures
        number_of(zero_padded(text, width)) == number_of(text),
        zero_padded(text, width).len() == if text.len() >= width {
            text.len() as int
        } else {
            width
        },
    decreases width - text.len(),
{
    if text.len() < width {
        lemma_zero_before(text);
        lemma_zero_padded(seq!['0'] + text, width);
    }
}

/// The first segment is named by nothing, and every other one by a dot and its
/// number in eight digits or more, so that no two have one name.
pub proof fn law_segments_have_names_of_their_own(one: u32, other: u32)
    ensures
        segment_mark(0).len() == 0,
        one > 0 ==> segment_mark(one).len() >= 9 && segment_mark(one)[0] == '.' && number_of(
            segment_mark(one).skip(1),
        ) == one,
        segment_mark(one) == segment_mark(other) ==> one == other,
{
    reveal_strlit(".");
    lemma_mark(one);
    lemma_mark(other);
}

proof fn lemma_mark(id: u32)
    ensures
        id > 0 ==> segment_mark(id).len() >= 9 && segment_mark(id)[0] == '.' && number_of(
            segment_mark(id).skip(1),
        ) == id,
{
    reveal_strlit(".");
    if id > 0 {
        let digits = decimal_text(id as nat);
        law_number_is_written_in_digits(id as nat);
        lemma_zero_padded(digits, 8);
        assert(segment_mark(id).skip(1) =~= zero_padded(digits, 8));
    }
}

proof fn lemma_in_sequence(records: Seq<RecordModel>, next: int)
    requires
        0 <= next,
        next + records.len() <= u64::MAX,
    ensures
        leading_in_sequence(records, next) == records.len() <==> forall|i: int|
            0 <= i < records.len() ==> (#[trigger] records[i]).sequence == next + i,
        0 <= leading_in_sequence(records, next) <= records.len(),
    decreases records.len(),
{
    if records.len() > 0 {
        let rest = records.skip(1);
        lemma_in_sequence(rest, next + 1);
        if leading_in_sequence(records, next) == records.len() {
            assert forall|i: int| 0 <= i < records.len() implies (
            #[trigger] records[i]).sequence == next + i by {
                if i > 0 {
                    assert(rest[i - 1] == records[i]);
                }
            }
        }
        if forall|i: int|
            0 <= i < records.len() ==> (#[trigger] records[i]).sequence == next + i {
            assert(records[0].sequence == next + 0);
            assert forall|i: int| 0 <= i < rest.len() implies (#[trigger] rest[i]).sequence
                == next + 1 + i by {
                assert(rest[i] == records[i + 1]);
            }
        }
    }
}

/// A segment belongs to a journal exactly where its records are numbered on
/// from the last one without a gap, and nothing is wrong with it, unless it is
/// the last one, whose end may be torn.
pub proof fn law_segments_follow_one_another(found: Scan, is_last: bool, next: int)
    requires
        0 <= next,
        next + found.records.len() <= u64::MAX,
    ensures
        segment_accepted(found, is_last, next) <==> {
            &&& is_last || found.fault is None
            &&& forall|i: int|
                0 <= i < found.records.len() ==> (#[trigger] found.records[i]).sequence == next + i
        },
{
    lemma_in_sequence(found.records, next);
}

// ---------------------------------------------------------------------------
// Checkpoints.

/// A new checkpoint in whose way nothing comes ends up in its place, whether or
/// not there was an old one, which is set aside first and removed last.
pub proof fn law_good_swap_succeeds()
    ensures
        ({
            let done = SwapEvent::Done;
            let missing = SwapEvent::Missing;
            let find = swap_next(CacheSwap::RemoveLeftover, missing);
            let aside = swap_next(find, done);
            let publish = swap_next(aside, done);
            let remove = swap_next(publish, done);
            &&& find == CacheSwap::FindOld
            &&& aside == CacheSwap::SetAside
            &&& publish == (CacheSwap::Publish { set_aside: true })
            &&& remove == CacheSwap::RemoveCopy
            &&& swap_next(remove, done) == CacheSwap::Done
            &&& swap_next(find, missing) == (CacheSwap::Publish { set_aside: false })
            &&& swap_next(swap_next(find, missing), done) == CacheSwap::Done
        }),
{
}

/// Where the new checkpoint cannot be put in its place, the old one that was
/// set aside is put back, and whatever comes of it the swap has failed.
pub proof fn law_failed_swap_puts_the_old_one_back(event: SwapEvent)
    ensures
        ({
            let publish = CacheSwap::Publish { set_aside: true };
            let back = swap_next(publish, SwapEvent::Failed);
            &&& back == CacheSwap::PutBack
            &&& swap_next(back, event) == CacheSwap::Failed
            &&& swap_next(CacheSwap::SetAside, SwapEvent::Failed) == CacheSwap::Failed
            &&& swap_next(
                CacheSwap::Publish { set_aside: false },
                SwapEvent::Failed,
            ) == CacheSwap::Failed
        }),
{
}

/// A checkpoint is looked for in its place first, where the new one is written
/// second and in the copy last.
pub proof fn law_checkpoint_is_looked_for_in_order(
    files: CacheFiles,
    usable: spec_fn(Seq<u8>) -> bool,
)
    ensures
        ({
            let good = |held: Option<Seq<u8>>| held is Some && usable(held->0);
            found_behind(files, usable, None) == if good(files.primary) {
                files.primary
            } else if good(files.temporary) {
                files.temporary
            } else if good(files.copy) {
                files.copy
            } else {
                None
            }
        }),
{
    reveal_with_fuel(found_behind, 4);
}

// ---------------------------------------------------------------------------
// Databases.

/// The versions from 0 to 6 are opened and no others. One before 6 is brought
/// up from where it is, after a copy was made of it if it was there before.
pub proof fn law_versions_that_are_opened(version: i64, existed: bool)
    ensures
        migration_plan(version, existed) is Ok <==> 0 <= version <= 6,
        0 <= version <= 6 ==> migration_plan(version, existed) == Ok::<_, StorageError>(
            MigrationPlan { from: version, backup: existed && version < 6 },
        ),
        version < 0 || version > 6 ==> migration_plan(version, existed) == Err::<MigrationPlan, _>(
            StorageError::UnsupportedSchema(version),
        ),
{
}

/// A backup that is not whole, or of a version that is not opened, is not put
/// back.
pub proof fn law_bad_backups_are_refused(check: Seq<char>, version: i64)
    ensures
        backup_is_good(check, version) ==> check.len() == 2 && check[0] == 'o' && check[1] == 'k',
        backup_is_good(check, version) ==> 0 <= version <= 6,
        backup_is_good(seq!['o', 'k'], version) <==> 0 <= version <= 6,
{
    reveal_strlit("ok");
    assert("ok"@ =~= seq!['o', 'k']);
}

/// What is kept as a number is read as what it stands for, and a number that
/// stands for nothing is not read at all.
pub proof fn law_numbers_of_kinds(value: i64)
    ensures
        bool_of(value) == Some(false) <==> value == 0,
        bool_of(value) == Some(true) <==> value == 1,
        kind_of(value) == Some(ProfileKind::Ssh) <==> value == 0,
        kind_of(value) == Some(ProfileKind::Local) <==> value == 1,
        auth_method_of(value) == Some(SshAuthMethod::Password) <==> value == 0,
        auth_method_of(value) == Some(SshAuthMethod::PrivateKey) <==> value == 1,
        auth_method_of(value) == Some(SshAuthMethod::Certificate) <==> value == 2,
        auth_method_of(value) == Some(SshAuthMethod::Agent) <==> value == 3,
        agent_backend_of(value) == Some(SshAgentBackend::Auto) <==> value == 0,
        agent_backend_of(value) == Some(SshAgentBackend::OpenSsh) <==> value == 1,
        agent_backend_of(value) == Some(SshAgentBackend::Pageant) <==> value == 2,
{
}

/// A connection is read with the port that was kept, and not at all where that
/// is none.
pub proof fn law_ports_are_read_as_kept(row: SshConnectionRow)
    ensures
        ssh_connection_of(row) matches Some(connection) ==> connection.port == row.port
            && connection.host == row.host@ && connection.username == row.username@,
        row.port < 0 || row.port > 65535 ==> ssh_connection_of(row) is None,
{
}

/// A commit goes one revision on from the one that it expects, and never beyond
/// what can be kept.
pub proof fn law_revisions_go_up_one_by_one(expected: u64, next: u64, accepted: bool)
    ensures
        may_commit(expected, next, accepted) ==> accepted && next > 0 && expected == next - 1
            && next <= 0x7fff_ffff_ffff_ffff,
        accepted && next > 0 && expected == next - 1 && next <= 0x7fff_ffff_ffff_ffff ==> may_commit(
            expected,
            next,
            accepted,
        ),
{
}

} // verus!
