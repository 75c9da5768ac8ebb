use crate::abs_time::{from_line, header_value, joined_upto};
use crate::line::{line_outcome, stored_post, LineOutcome, LineParser};
use crate::log::{unchanged_indexes, Log};
use crate::tokens::tokens_of;
use vstd::prelude::*;

verus! {

// The verified part of the loader: the file-name check and the per-line
// policy. Opening and streaming the file is the caller's business; each
// line, stripped of its terminators, goes through here.

/// Whether a path names a trace file: it ends in `.asc`.
pub open spec fn has_asc_extension(path: Seq<char>) -> bool {
    path.len() >= 4 && path.subrange(path.len() - 4, path.len() as int) == ".asc"@
}

/// Check the trace-file suffix, exactly per [`has_asc_extension`].
pub fn check_asc_extension(path: &str) -> (r: bool)
    ensures
        r == has_asc_extension(path@),
{
    let n: usize = path.unicode_len();
    if n < 4 {
        return false;
    }
    let tail = path.substring_char(n - 4, n);
    crate::abs_time::str_eq(tail, ".asc")
}

/// Feed one line of the trace into the store: the first line that parses as
/// an absolute-start-time header sets the start time; every other line goes
/// to the frame decoder.
pub fn ingest_line(lp: &mut LineParser, log: &mut Log, found_abs_time: &mut bool, line: &str)
    ensures
        ({
            if !*old(found_abs_time) && header_value(line@) is Some {
                &&& *final(found_abs_time) == true
                &&& final(log).absolute_time.value == header_value(line@)
                &&& final(log).absolute_time.text@ == joined_upto(tokens_of(line@), 7)
                &&& final(log).absolute_time.wf()
                &&& final(log).frames == old(log).frames
                &&& final(log).channel_map == old(log).channel_map
                &&& unchanged_indexes(*old(log), *final(log))
            } else {
                &&& *final(found_abs_time) == *old(found_abs_time)
                &&& match line_outcome(tokens_of(line@), *old(log)) {
                    LineOutcome::Dropped => *final(log) == *old(log),
                    LineOutcome::Stored(fm, bytes) => stored_post(*old(log), *final(log), fm, bytes),
                }
            }
        }),
{
    if !*found_abs_time {
        if let Some(t) = from_line(line) {
            log.absolute_time = t;
            *found_abs_time = true;
            return ;
        }
    }
    lp.parse(line, log);
}

} // verus!
