//! Which channels the bot talks in, and to which channels of a guild it
//! writes its log.

use vstd::prelude::*;

verus! {

/// Whether the bot may talk in the channel `channel_id`: never in a
/// channel of the blacklist, and, where there is a whitelist, only in the
/// channels of it.
pub fn can_talk_in(channel_id: u64, blacklist: &Vec<u64>, whitelist: &Vec<u64>) -> (allowed: bool)
    ensures
        allowed == (!blacklist@.contains(channel_id) && (whitelist@.len() == 0
            || whitelist@.contains(channel_id))),
{
    !holds(blacklist, channel_id) && (whitelist.len() == 0 || holds(whitelist, channel_id))
}

/// Whether `id` stands in `ids`.
fn holds(ids: &Vec<u64>, id: u64) -> (held: bool)
    ensures
        held == ids@.contains(id),
{
    let mut i: usize = 0;
    while i < ids.len()
        invariant
            i <= ids.len(),
            forall|j: int| 0 <= j < i ==> ids@[j] != id,
        decreases ids.len() - i,
    {
        if ids[i] == id {
            return true;
        }
        i += 1;
    }
    false
}

/// A log channel, and the guild it belongs to where the channel is known.
#[derive(Debug, Clone, Copy, PartialEq, Eq, Structural)]
pub struct LogChannel {
    pub id: u64,
    pub guild: Option<u64>,
}

/// The log channels of `channels` that belong to the guild `guild_id`, in
/// their order.
pub open spec fn log_channels_of(channels: Seq<LogChannel>, guild_id: u64) -> Seq<u64>
    decreases channels.len(),
{
    if channels.len() == 0 {
        Seq::empty()
    } else if channels.last().guild == Some(guild_id) {
        log_channels_of(channels.drop_last(), guild_id).push(channels.last().id)
    } else {
        log_channels_of(channels.drop_last(), guild_id)
    }
}

/// The log channels of the guild `guild_id`. A channel of which no guild
/// is known belongs to none.
pub fn get_log_channels(guild_id: u64, channels: &Vec<LogChannel>) -> (ids: Vec<u64>)
    ensures
        ids@ == log_channels_of(channels@, guild_id),
{
    let mut ids: Vec<u64> = Vec::new();
    let mut i: usize = 0;
    while i < channels.len()
        invariant
            i <= channels.len(),
            ids@ == log_channels_of(channels@.take(i as int), guild_id),
        decreases channels.len() - i,
    {
        proof {
            assert(channels@.take(i + 1).drop_last() =~= channels@.take(i as int));
        }
        match channels[i].guild {
            Some(guild) => {
                if guild == guild_id {
                    ids.push(channels[i].id);
                }
            },
            None => {},
        }
        i += 1;
    }
    assert(channels@.take(i as int) =~= channels@);
    ids
}

} // verus!
