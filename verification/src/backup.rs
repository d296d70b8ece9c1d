//! Backup policy of the progress document: one backup per time bucket,
//! pruned after a retention window, and the quarantine name given to a
//! corrupt document.

use vstd::prelude::*;

use crate::strutil::{
    all_digits, is_prefix_of, parse_u64, push_char, spec_dec_str, spec_dec_val, str_starts_with,
    u64_to_string,
};

verus! {

/// The start of the backup time bucket holding `ts`.
pub fn backup_bucket(ts: u64, interval: u64) -> (r: u64)
    requires
        interval > 0,
    ensures
        r == (ts / interval) * interval,
        r <= ts,
{
    let q = ts / interval;
    proof {
        assert(q * interval <= ts && q == ts as int / interval as int) by (nonlinear_arith)
            requires
                interval > 0,
                q == ts as int / interval as int,
        ;
    }
    q * interval
}

/// The oldest creation time a backup may have: the current time less the
/// retention window, bottoming out at the epoch.
pub fn backup_cutoff(ts: u64, retention_days: u64) -> (r: u64)
    requires
        retention_days <= 0xFFFF_FFFF,
    ensures
        r == if ts >= retention_days * 86400 {
            ts - retention_days * 86400
        } else {
            0int
        },
{
    let window: u64 = retention_days * 86400;
    if ts >= window {
        ts - window
    } else {
        0
    }
}

/// The name of the backup for the bucket starting at `bucket`:
/// `{file_name}.{suffix}.{bucket}`.
pub fn backup_file_name(file_name: &str, suffix: &str, bucket: u64) -> (r: String)
    ensures
        r@ == file_name@ + seq!['.'] + suffix@ + seq!['.'] + spec_dec_str(bucket as nat),
{
    let mut out = file_name.to_owned();
    push_char(&mut out, '.');
    out.append(suffix);
    push_char(&mut out, '.');
    let num = u64_to_string(bucket);
    out.append(num.as_str());
    proof {
        assert(out@ =~= file_name@ + seq!['.'] + suffix@ + seq!['.'] + spec_dec_str(bucket as nat));
    }
    out
}

/// The quarantine name given to a corrupt document at time `ts`:
/// `{file_name}.corrupted.{ts}`.
pub fn quarantine_file_name(file_name: &str, ts: u64) -> (r: String)
    ensures
        r@ == file_name@ + ".corrupted."@ + spec_dec_str(ts as nat),
{
    let mut out = file_name.to_owned();
    out.append(".corrupted.");
    let num = u64_to_string(ts);
    out.append(num.as_str());
    out
}

/// A backup name older than the cutoff: `{prefix}{ts}` for a decimal `ts`
/// below `cutoff`, where `prefix` is `{file_name}.{suffix}.`.
pub open spec fn spec_is_stale_backup(
    name: Seq<char>,
    file_name: Seq<char>,
    suffix: Seq<char>,
    cutoff: u64,
) -> bool {
    let prefix = file_name + seq!['.'] + suffix + seq!['.'];
    &&& is_prefix_of(prefix, name)
    &&& name.len() > prefix.len()
    &&& all_digits(name.skip(prefix.len() as int))
    &&& spec_dec_val(name.skip(prefix.len() as int)) < cutoff as nat
}

/// Decides whether `name` is a backup of `file_name` old enough to prune.
pub fn is_stale_backup(name: &str, file_name: &str, suffix: &str, cutoff: u64) -> (r: bool)
    ensures
        r == spec_is_stale_backup(name@, file_name@, suffix@, cutoff),
{
    let mut prefix = file_name.to_owned();
    push_char(&mut prefix, '.');
    prefix.append(suffix);
    push_char(&mut prefix, '.');
    proof {
        assert(prefix@ =~= file_name@ + seq!['.'] + suffix@ + seq!['.']);
    }
    if !str_starts_with(name, prefix.as_str()) {
        return false;
    }
    let plen = prefix.as_str().unicode_len();
    let nlen = name.unicode_len();
    if nlen <= plen {
        proof {
            assert(!spec_is_stale_backup(name@, file_name@, suffix@, cutoff));
        }
        return false;
    }
    let rest = name.substring_char(plen, nlen);
    proof {
        assert(rest@ =~= name@.skip(prefix@.len() as int));
    }
    match parse_u64(rest) {
        Some(ts) => ts < cutoff,
        None => {
            // a value too large for u64 cannot be below any u64 cutoff
            false
        },
    }
}

} // verus!
