//! The timelock of a room: the pool epoch at which a timelocked room
//! unlocks, read from the room's `room.toml`.

use vstd::prelude::*;

use crate::text::{
    chars_of, field_of, field_value, has_prefix, lines, parse_u64, parse_u64_chars, starts_with,
    trim, trim_chars, views,
};
use crate::wire::text_lines;

verus! {

/// What reading a line changes: whether a bundle is configured, the
/// unlock delay, and the epoch the room is valid from. A later line for
/// the same setting replaces an earlier one (a value that is not a number
/// clears it).
pub open spec fn timelock_step(st: (bool, Option<u64>, Option<u64>), raw: Seq<char>) -> (
    bool,
    Option<u64>,
    Option<u64>,
) {
    let l = trim(raw);
    if has_prefix(l, "timelock_bundle"@) {
        (true, st.1, st.2)
    } else if field_of(l, "timelock_unlock_after_epochs:"@) is Some {
        (st.0, parse_u64(field_of(l, "timelock_unlock_after_epochs:"@)->0), st.2)
    } else if field_of(l, "timelock_unlock_after_epochs ="@) is Some {
        (st.0, parse_u64(field_of(l, "timelock_unlock_after_epochs ="@)->0), st.2)
    } else if field_of(l, "valid_from_epoch:"@) is Some {
        (st.0, st.1, parse_u64(field_of(l, "valid_from_epoch:"@)->0))
    } else if field_of(l, "valid_from_epoch ="@) is Some {
        (st.0, st.1, parse_u64(field_of(l, "valid_from_epoch ="@)->0))
    } else {
        st
    }
}

pub open spec fn timelock_scan(ls: Seq<Seq<char>>) -> (bool, Option<u64>, Option<u64>)
    decreases ls.len(),
{
    if ls.len() == 0 {
        (false, None, None)
    } else {
        timelock_step(timelock_scan(ls.drop_last()), ls.last())
    }
}

pub open spec fn unwrap_or_zero(o: Option<u64>) -> u64 {
    match o {
        Some(v) => v,
        None => 0,
    }
}

/// The unlock epoch of a room configuration: with a timelock bundle, the
/// epoch it is valid from plus the unlock delay (saturating, missing values
/// counting as zero); without one, none.
pub open spec fn unlock_epoch_spec(text: Seq<char>) -> Option<u64> {
    let (bundle, after, base) = timelock_scan(lines(text));
    if !bundle {
        None
    } else if unwrap_or_zero(base) + unwrap_or_zero(after) > u64::MAX {
        Some(u64::MAX)
    } else {
        Some((unwrap_or_zero(base) + unwrap_or_zero(after)) as u64)
    }
}

fn field_number(line: &Vec<char>, key: &str) -> (r: Option<Option<u64>>)
    ensures
        match field_of(line@, key@) {
            Some(v) => r == Some(parse_u64(v)),
            None => r is None,
        },
{
    match field_value(line, key) {
        Some(v) => Some(parse_u64_chars(&v)),
        None => None,
    }
}

/// Reads the unlock epoch of a timelocked room from its `room.toml` text.
pub fn timelock_unlock_from_text(text: &str) -> (r: Option<u64>)
    ensures
        r == unlock_epoch_spec(text@),
{
    let ls = text_lines(text);
    let ghost vs = views(ls@);
    let bundle_key = chars_of("timelock_bundle");
    let mut has_bundle = false;
    let mut unlock_after: Option<u64> = None;
    let mut valid_from: Option<u64> = None;
    let mut i: usize = 0;
    assert(vs.take(0) =~= Seq::<Seq<char>>::empty());
    while i < ls.len()
        invariant
            vs == views(ls@),
            vs == lines(text@),
            bundle_key@ == "timelock_bundle"@,
            i <= ls.len(),
            timelock_scan(vs.take(i as int)) == (has_bundle, unlock_after, valid_from),
        decreases ls.len() - i,
    {
        proof {
            assert(vs.take(i + 1).drop_last() =~= vs.take(i as int));
            assert(vs.take(i + 1).last() == ls@[i as int]@);
        }
        let line = trim_chars(&ls[i]);
        if starts_with(&line, &bundle_key) {
            has_bundle = true;
        } else if let Some(v) = field_number(&line, "timelock_unlock_after_epochs:") {
            unlock_after = v;
        } else if let Some(v) = field_number(&line, "timelock_unlock_after_epochs =") {
            unlock_after = v;
        } else if let Some(v) = field_number(&line, "valid_from_epoch:") {
            valid_from = v;
        } else if let Some(v) = field_number(&line, "valid_from_epoch =") {
            valid_from = v;
        }
        i = i + 1;
    }
    assert(vs.take(ls.len() as int) =~= vs);
    if !has_bundle {
        return None;
    }
    let after: u64 = match unlock_after {
        Some(v) => v,
        None => 0,
    };
    let base: u64 = match valid_from {
        Some(v) => v,
        None => 0,
    };
    Some(base.saturating_add(after))
}

} // verus!
