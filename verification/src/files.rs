//! The decisions around manifest and backup files: which names count, how
//! backups are named, which backups to restore, and sorting one manifest.

use vstd::prelude::*;
use crate::config::{opt_string_view, HoistConfig, RestoreStats, SortStats};
use crate::errors::{parse_toml, Result};
use crate::sorting::{sort_document, sorted_document, views};
use crate::text::{ends_with_text, has_prefix, has_suffix, same_text, starts_with_text};
use crate::model::document_keys_distinct;
use crate::toml::{document_entries, parsed_document, root_is_table};
use std::path::Path;
use std::time::{SystemTime, UNIX_EPOCH};
use toml_edit::DocumentMut;

verus! {

#[verifier::external_type_specification]
#[verifier::external_body]
pub struct ExSystemTime(SystemTime);

/// The text that `chrono::DateTime::from_timestamp(secs, nanos)` formatted
/// with `pattern` gives, if that instant is in chrono's range.
pub uninterp spec fn utc_format(secs: i64, nanos: u32, pattern: Seq<char>) -> Option<Seq<char>>;

/// The pattern of backup timestamps, such as `20240131T235959Z`.
pub open spec fn stamp_pattern() -> Seq<char> {
    "%Y%m%dT%H%M%SZ"@
}

/// `SystemTime::now`: the current reading of the system clock. It depends on
/// the clock, so nothing is stated of it.
#[verifier::external_body]
fn clock_now() -> SystemTime {
    SystemTime::now()
}

/// `SystemTime::duration_since(UNIX_EPOCH)`: how long after the Unix epoch
/// `t` lies, as whole seconds and the nanoseconds past them (always under one
/// billion, as `Duration::subsec_nanos` documents); `None` when `t` lies before
/// the epoch. The reading itself is opaque, so the seconds are not stated.
#[verifier::external_body]
fn since_unix_epoch(t: &SystemTime) -> (r: Option<(u64, u32)>)
    ensures
        r matches Some(d) ==> d.1 < 1_000_000_000,
{
    match t.duration_since(UNIX_EPOCH) {
        Ok(d) => Some((d.as_secs(), d.subsec_nanos())),
        Err(_) => None,
    }
}

/// `chrono::DateTime::from_timestamp(secs, nanos)` (`None` out of chrono's
/// range), rendered by `DateTime::format(pattern)`; the result is named by
/// [`utc_format`]. Rendering panics for a pattern chrono cannot render, so
/// the `requires` admits only the stamp pattern, whose fields `%Y %m %d %H %M
/// %S` and letters `T`, `Z` always render; its text is then never empty.
/// The `DateTime` value does not leave this function: callers get its text.
#[verifier::external_body]
fn format_utc(secs: i64, nanos: u32, pattern: &str) -> (r: Option<String>)
    requires
        pattern@ == stamp_pattern(),
    ensures
        match r {
            Some(s) => utc_format(secs, nanos, pattern@) == Some(s@) && s@.len() > 0,
            None => utc_format(secs, nanos, pattern@) is None,
        },
{
    match chrono::DateTime::from_timestamp(secs, nanos) {
        Some(t) => Some(t.format(pattern).to_string()),
        None => None,
    }
}

/// The current reading of the system clock, as seconds and nanoseconds since
/// the Unix epoch; `None` when the clock reads before the epoch. It depends
/// on the clock: of the reading only the nanosecond bound is known.
pub fn clock_reading() -> (r: Option<(u64, u32)>)
    ensures
        r matches Some(d) ==> d.1 < 1_000_000_000,
{
    let now = clock_now();
    since_unix_epoch(&now)
}

/// The UTC timestamp of an instant given as seconds and nanoseconds since the
/// Unix epoch, in the stamp pattern (`20240131T235959Z`); `None` when the
/// instant is out of range (the seconds exceed `i64::MAX`, or chrono's range).
pub fn utc_stamp_at(secs: u64, nanos: u32) -> (r: Option<String>)
    ensures
        match r {
            Some(s) => secs <= i64::MAX && utc_format(secs as i64, nanos, stamp_pattern()) == Some(
                s@,
            ) && s@.len() > 0,
            None => secs > i64::MAX || utc_format(secs as i64, nanos, stamp_pattern()) is None,
        },
{
    if secs > 9_223_372_036_854_775_807u64 {
        None
    } else {
        format_utc(secs as i64, nanos, "%Y%m%dT%H%M%SZ")
    }
}

/// Whether a file is a manifest, by its name.
pub fn is_manifest_name(name: &str) -> (r: bool)
    ensures
        r == (name@ == "Cargo.toml"@),
{
    same_text(name, "Cargo.toml")
}

/// Whether a file is a manifest backup, by its name: `Cargo.toml.<...>.bak`
/// (this includes `Cargo.toml.bak`).
pub fn is_backup_name(name: &str) -> (r: bool)
    ensures
        r == (has_prefix(name@, "Cargo.toml."@) && has_suffix(name@, ".bak"@)),
{
    starts_with_text(name, "Cargo.toml.") && ends_with_text(name, ".bak")
}

/// The name of a backup of `file_name`: `<file_name>.bak`, or with a
/// timestamp `<file_name>.<stamp>.bak`.
pub fn backup_name(file_name: &str, stamp: Option<&str>) -> (r: String)
    ensures
        r@ == match stamp {
            None => file_name@ + ".bak"@,
            Some(s) => file_name@ + "."@ + s@ + ".bak"@,
        },
{
    let mut r = file_name.to_string();
    match stamp {
        None => {
            r.append(".bak");
        },
        Some(s) => {
            r.append(".");
            r.append(s);
            r.append(".bak");
        },
    }
    r
}

/// The name for a new backup of `file_name`: `<file_name>.bak` unless that
/// file already exists, then `<file_name>.<stamp>.bak` with the given
/// timestamp (see [`utc_stamp_at`]), so that an existing backup is never
/// overwritten. `None` when a stamp is needed and none was given.
pub fn backup_file_name(file_name: &str, plain_backup_exists: bool, stamp: Option<&str>) -> (r:
    Option<String>)
    ensures
        !plain_backup_exists ==> (r matches Some(s) && s@ == file_name@ + ".bak"@),
        plain_backup_exists ==> match stamp {
            Some(t) => r matches Some(s) && s@ == file_name@ + "."@ + t@ + ".bak"@,
            None => r is None,
        },
        plain_backup_exists ==> (r matches Some(s) ==> s@ != file_name@ + ".bak"@),
{
    if plain_backup_exists {
        match stamp {
            None => None,
            Some(t) => {
                let r = backup_name(file_name, Some(t));
                proof {
                    reveal_strlit(".");
                    reveal_strlit(".bak");
                }
                assert(r@.len() > (file_name@ + ".bak"@).len());
                Some(r)
            },
        }
    } else {
        Some(backup_name(file_name, None))
    }
}

/// How many of the flags are set.
pub open spec fn count_true(flags: Seq<bool>) -> nat
    decreases flags.len(),
{
    if flags.len() == 0 {
        0
    } else {
        count_true(flags.drop_last()) + if flags.last() {
            1nat
        } else {
            0nat
        }
    }
}

/// Plans restoring the backups found, given for each whether the manifest
/// next to it exists: a backup whose manifest is missing is skipped; the
/// others are counted, and copied over the manifest unless in a dry run.
/// Returns the statistics and, per backup, whether to copy it.
pub fn restore(manifests_exist: &Vec<bool>, dry_run: bool) -> (r: (RestoreStats, Vec<bool>))
    ensures
        r.0.files_restored == count_true(manifests_exist@),
        r.1@.len() == manifests_exist@.len(),
        forall|i: int|
            0 <= i < manifests_exist@.len() ==> #[trigger] r.1@[i] == (manifests_exist@[i]
                && !dry_run),
{
    let mut stats = RestoreStats { files_restored: 0 };
    let mut copy: Vec<bool> = Vec::new();
    let mut i: usize = 0;
    while i < manifests_exist.len()
        invariant
            i <= manifests_exist@.len(),
            stats.files_restored == count_true(manifests_exist@.take(i as int)),
            stats.files_restored <= i,
            copy@.len() == i,
            forall|m: int| 0 <= m < i ==> #[trigger] copy@[m] == (manifests_exist@[m] && !dry_run),
        decreases manifests_exist@.len() - i,
    {
        assert(manifests_exist@.take(i + 1).drop_last() =~= manifests_exist@.take(i as int));
        if manifests_exist[i] {
            stats.files_restored += 1;
        }
        copy.push(manifests_exist[i] && !dry_run);
        i += 1;
    }
    assert(manifests_exist@.take(manifests_exist@.len() as int) =~= manifests_exist@);
    (stats, copy)
}

/// Sorts one manifest of the workspace, given its content: parses it, sorts
/// it as `sort_document` does with the configured sections and prefix, and
/// counts it when anything was sorted. Returns the sorted document when it
/// changed and is to be written back, that is, unless in a dry run.
pub fn sort(
    content: &str,
    path: &Path,
    config: &HoistConfig,
    dry_run: bool,
    stats: &mut SortStats,
) -> (r: Result<
    Option<DocumentMut>,
>)
    requires
        old(stats).files_sorted < usize::MAX,
    ensures
        r is Ok <==> parsed_document(content@) is Some,
        r is Err ==> *final(stats) == *old(stats) && r->Err_0 is ParseToml,
        r is Ok ==> document_keys_distinct(parsed_document(content@).unwrap()),
        r matches Ok(o) ==> ({
            let root = parsed_document(content@).unwrap();
            let (sorted, modified) = sorted_document(
                root,
                views(config.sections@),
                opt_string_view(config.sort_prefix),
            );
            &&& (o is Some <==> modified && !dry_run)
            &&& (o matches Some(d) ==> document_entries(d) == sorted && root_is_table(d))
            &&& final(stats).files_sorted == old(stats).files_sorted + if modified {
                1int
            } else {
                0int
            }
        }),
{
    let mut doc = parse_toml(content, path)?;
    let prefix: Option<&str> = match &config.sort_prefix {
        Some(p) => Some(p.as_str()),
        None => None,
    };
    let modified = sort_document(&mut doc, config.sections.as_slice(), prefix);
    if modified {
        stats.files_sorted += 1;
    }
    if modified && !dry_run {
        Ok(Some(doc))
    } else {
        Ok(None)
    }
}

} // verus!
