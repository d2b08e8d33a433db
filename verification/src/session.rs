//! The decisions of a command-line session: what is done with an input, and where the
//! output goes.

use vstd::prelude::*;

use crate::decode::OutputFormat;

verus! {

/// What a session does.
#[derive(Debug, Clone, Copy, PartialEq, Eq, Structural)]
pub enum Task {
    /// Test a DST-compressed file.
    Test,
    /// Decode a DST-compressed file.
    Decode,
    /// Decode a DST-compressed file on the fly and encode it again.
    Reencode,
    /// Encode an uncompressed file.
    Encode,
}

/// Choose what to do with an input, or say why it cannot be done.
///
/// Testing goes before decoding, and without either the input is encoded.
pub fn choose_task(is_dst: bool, test: bool, decode: bool, has_output: bool) -> (r: std::result::Result<
    Task,
    String,
>)
    ensures
        match r {
            Ok(Task::Test) => is_dst && test && !has_output,
            Ok(Task::Decode) => is_dst && !test && decode,
            Ok(Task::Reencode) => is_dst && !test && !decode,
            Ok(Task::Encode) => !is_dst && !test && !decode,
            Err(m) => {
                ||| is_dst && test && has_output && m@ == "Output file is not used in test mode"@
                ||| !is_dst && test && m@ == "Test mode requires a DST-compressed DSDIFF file"@
                ||| !is_dst && !test && decode && m@
                    == "Decode mode requires a DST-compressed DSDIFF file"@
            },
        },
{
    if is_dst {
        if test {
            if has_output {
                return Err("Output file is not used in test mode".to_owned());
            }
            return Ok(Task::Test);
        }
        if decode {
            return Ok(Task::Decode);
        }
        Ok(Task::Reencode)
    } else {
        if test {
            return Err("Test mode requires a DST-compressed DSDIFF file".to_owned());
        }
        if decode {
            return Err("Decode mode requires a DST-compressed DSDIFF file".to_owned());
        }
        Ok(Task::Encode)
    }
}

/// The format that the extension of an output file stands for: DSDIFF for `dff`, else DSF.
pub fn output_format(extension: Option<&str>) -> (r: OutputFormat)
    ensures
        r == (match extension {
            Some(e) if e@ == "dff"@ => OutputFormat::DsdiffUncompressed,
            _ => OutputFormat::Dsf,
        }),
{
    match extension {
        Some(e) => if e.to_owned() == "dff".to_owned() {
            OutputFormat::DsdiffUncompressed
        } else {
            OutputFormat::Dsf
        },
        None => OutputFormat::Dsf,
    }
}

/// Where the output is written.
#[derive(Debug, Clone, Copy, PartialEq, Eq, Structural)]
pub enum Target {
    /// Nowhere: the output file exists and may not be overwritten.
    Refused,
    /// To a temporary file first, as the output file is the input.
    Temporary,
    /// To the output file.
    Direct,
}

/// Choose where the output is written, given whether the output file exists and whether it
/// is the input.
pub fn choose_target(force: bool, present: bool, same: bool) -> (r: Target)
    ensures
        r is Refused <==> present && !force,
        r is Temporary <==> present && force && same,
        r is Direct <==> !present || (force && !same),
{
    if !force && present {
        Target::Refused
    } else if present && same {
        Target::Temporary
    } else {
        Target::Direct
    }
}

/// What becomes of the file that was written.
#[derive(Debug, Clone, Copy, PartialEq, Eq, Structural)]
pub enum Finish {
    /// It is removed.
    Remove,
    /// It takes the place of the output file.
    Rename,
    /// It stays.
    Keep,
}

/// Choose what becomes of the file that was written, after success or failure.
pub fn choose_finish(failed: bool, temporary: bool) -> (r: Finish)
    ensures
        r is Remove <==> failed,
        r is Rename <==> !failed && temporary,
        r is Keep <==> !failed && !temporary,
{
    if failed {
        Finish::Remove
    } else if temporary {
        Finish::Rename
    } else {
        Finish::Keep
    }
}

/// Whether the progress after frame `i` of `n` is shown: after each hundred frames, and
/// after the last.
pub fn shows_progress(i: usize, n: usize) -> (r: bool)
    requires
        i < usize::MAX,
    ensures
        r <==> (i + 1) % 100 == 0 || i + 1 == n,
{
    (i + 1) % 100 == 0 || i + 1 == n
}

/// How many frames are encoded at a time: two for each thread of a pool, one without a pool.
pub fn batch_size(pool_threads: Option<usize>) -> (n: usize)
    requires
        pool_threads matches Some(t) ==> 2 * t <= usize::MAX,
    ensures
        n == (match pool_threads {
            Some(t) => 2 * t,
            None => 1,
        }),
{
    match pool_threads {
        Some(t) => t * 2,
        None => 1,
    }
}

} // verus!
