//! The command line of a compiler run and the log of an attempt.

use vstd::prelude::*;
use vstd::string::StringExecFns;
use crate::interface::CompileResult;
use crate::path::{dir_under, texts, under};

verus! {

/// The exit code with which a run that took too long is ended.
pub const TIMEOUT_CODE: i32 = 124;

/// The line that opens the log of an attempt.
pub const RULE: &'static str = "\n==============================\n";

/// The line that frames the output of a tool.
pub const DASHES: &'static str = "------------------------------\n";

/// `text` as a programmer would write it: inside double quotes, with
/// escapes for the characters that need them.
pub uninterp spec fn debug_text(text: Seq<char>) -> Seq<char>;

/// Formats `text` with the `Debug` formatting of `str`, through `format!`.
/// The contract names the result: the same text is always quoted the same
/// way. Nothing is claimed about which characters are escaped.
#[verifier::external_body]
pub(crate) fn quoted(text: &str) -> (out: String)
    ensures
        out@ == debug_text(text@),
{
    format!("{:?}", text)
}

/// The include flag for each directory of a header set.
pub open spec fn include_flags(headers: Seq<Seq<char>>) -> Seq<Seq<char>> {
    Seq::new(headers.len(), |i: int| "-I"@ + headers[i])
}

/// Format headers using the -I format.
pub fn format_headers(headers: &Vec<String>) -> (flags: Vec<String>)
    ensures
        texts(flags@) == include_flags(texts(headers@)),
{
    let mut flags: Vec<String> = Vec::new();
    let n = headers.len();
    let mut i: usize = 0;
    while i < n
        invariant
            n == headers.len(),
            i <= n,
            flags.len() == i,
            forall|j: int| 0 <= j < i ==> (#[trigger] flags[j])@ == "-I"@ + headers[j]@,
        decreases n - i,
    {
        let mut flag = "-I".to_owned();
        flag.append(headers[i].as_str());
        flags.push(flag);
        i += 1;
    }
    assert(texts(flags@) =~= include_flags(texts(headers@)));
    flags
}

/// Get the path of the binary `bin` in the directory `dir`.
pub fn get_compile_bin(dir: &str, bin: &str) -> (path: String)
    ensures
        path@ == under(dir@, seq![bin@]),
{
    let mut parts: Vec<String> = Vec::new();
    parts.push(bin.to_owned());
    assert(texts(parts@).subrange(0, 1) == seq![bin@]);
    dir_under(dir, &parts, 1)
}

/// Return a compilation error that carries the log so far.
pub fn compile_fail<M>(log: &str) -> (result: CompileResult<M>)
    ensures
        result.data is Err,
        result.to_log@ == log@,
{
    CompileResult { data: Err(()), to_log: log.to_owned() }
}

/// How a tool ended: what it printed to its error stream, and its exit
/// code, `None` where a signal ended it.
pub struct Finished {
    pub output: String,
    pub code: Option<i32>,
}

/// Whether a run with this exit code succeeded.
pub open spec fn succeeded(code: Option<i32>) -> bool {
    code == Some(0i32)
}

/// Whether a run with this exit code was ended for taking too long.
pub open spec fn timed_out(code: Option<i32>) -> bool {
    code == Some(TIMEOUT_CODE)
}

/// The items of `quoted`, separated by a comma and a space.
pub open spec fn listed(quoted: Seq<Seq<char>>) -> Seq<char>
    decreases quoted.len(),
{
    if quoted.len() == 0 {
        Seq::empty()
    } else if quoted.len() == 1 {
        quoted[0]
    } else {
        listed(quoted.drop_last()) + ", "@ + quoted.last()
    }
}

/// The header set as a log shows it: in square brackets, each directory
/// quoted.
pub open spec fn header_list(headers: Seq<Seq<char>>) -> Seq<char> {
    "["@ + listed(Seq::new(headers.len(), |i: int| debug_text(headers[i]))) + "]"@
}

/// The opening of the log of an attempt.
pub open spec fn head_text(title: Seq<char>, file: Seq<char>, headers: Seq<Seq<char>>) -> Seq<
    char,
> {
    RULE@ + title + " "@ + debug_text(file) + ":\nHeaders: "@ + header_list(headers)
}

/// The output of a tool as a log shows it.
pub open spec fn output_text(output: Seq<char>) -> Seq<char> {
    "\nOutput:\n"@ + DASHES@ + output + DASHES@
}

/// The last lines of the log of an attempt: a note where the run took too
/// long, and the verdict.
pub open spec fn verdict_text(code: Option<i32>) -> Seq<char> {
    let note = if timed_out(code) {
        "timed out\n"@
    } else {
        Seq::empty()
    };
    note + if succeeded(code) {
        "success\n"@
    } else {
        "failed\n"@
    }
}

impl Finished {
    /// Whether the run succeeded.
    pub fn succeeded(&self) -> (ok: bool)
        ensures
            ok == succeeded(self.code),
    {
        match self.code {
            Some(code) => code == 0,
            None => false,
        }
    }

    /// Whether the run was ended for taking too long.
    pub fn timed_out(&self) -> (late: bool)
        ensures
            late == timed_out(self.code),
            late ==> !succeeded(self.code),
    {
        match self.code {
            Some(code) => code == TIMEOUT_CODE,
            None => false,
        }
    }
}

/// Logs the opening of an attempt on `file` under `headers`.
pub fn log_head(log: &mut String, title: &str, file: &str, headers: &Vec<String>)
    ensures
        final(log)@ == old(log)@ + head_text(title@, file@, texts(headers@)),
{
    let ghost start = log@;
    let ghost hv = texts(headers@);
    let ghost qs = Seq::new(hv.len(), |i: int| debug_text(hv[i]));
    let mut list = String::new();
    let n = headers.len();
    let mut i: usize = 0;
    assert(qs.take(0) == Seq::<Seq<char>>::empty());
    while i < n
        invariant
            n == headers.len(),
            i <= n,
            hv == texts(headers@),
            qs == Seq::new(hv.len(), |i: int| debug_text(hv[i])),
            list@ == listed(qs.take(i as int)),
        decreases n - i,
    {
        proof {
            assert(qs.take(i + 1).drop_last() == qs.take(i as int));
            assert(qs.take(i + 1).last() == debug_text(headers[i as int]@));
        }
        if i > 0 {
            list.append(", ");
        } else {
            assert(list@ + debug_text(headers[i as int]@) == debug_text(headers[i as int]@));
        }
        list.append(quoted(headers[i].as_str()).as_str());
        i += 1;
    }
    assert(qs.take(n as int) == qs);
    let mut head = RULE.to_owned();
    head.append(title);
    head.append(" ");
    head.append(quoted(file).as_str());
    head.append(":\nHeaders: ");
    head.append("[");
    head.append(list.as_str());
    head.append("]");
    proof {
        let h = RULE@ + title@ + " "@ + debug_text(file@) + ":\nHeaders: "@;
        assert(head@ == h + "["@ + listed(qs) + "]"@);
        assert(h + "["@ + listed(qs) + "]"@ == h + ("["@ + listed(qs) + "]"@));
    }
    log.append(head.as_str());
}

/// Logs the output of a tool.
pub fn log_output(log: &mut String, output: &str)
    ensures
        final(log)@ == old(log)@ + output_text(output@),
{
    let mut block = "\nOutput:\n".to_owned();
    block.append(DASHES);
    block.append(output);
    block.append(DASHES);
    log.append(block.as_str());
}

/// Logs how a run ended and says whether it succeeded. A run that was
/// ended for taking too long has failed, and the log says that it timed
/// out.
pub fn log_verdict(log: &mut String, code: Option<i32>) -> (ok: bool)
    ensures
        final(log)@ == old(log)@ + verdict_text(code),
        ok == succeeded(code),
        timed_out(code) ==> !ok && final(log)@ == old(log)@ + "timed out\n"@ + "failed\n"@,
{
    let ghost start = log@;
    let late = match code {
        Some(code) => code == TIMEOUT_CODE,
        None => false,
    };
    let ok = match code {
        Some(code) => code == 0,
        None => false,
    };
    if late {
        log.append("timed out\n");
    } else {
        assert(start + Seq::<char>::empty() == start);
    }
    if ok {
        log.append("success\n");
    } else {
        log.append("failed\n");
    }
    proof {
        let note = if timed_out(code) {
            "timed out\n"@
        } else {
            Seq::<char>::empty()
        };
        let end = if succeeded(code) {
            "success\n"@
        } else {
            "failed\n"@
        };
        assert(start + note + end == start + (note + end));
    }
    ok
}

/// The log of one quick compilation of `file` under `headers`.
pub open spec fn try_text(file: Seq<char>, headers: Seq<Seq<char>>, output: Seq<char>, code: Option<
    i32,
>) -> Seq<char> {
    head_text("Try for file"@, file, headers) + output_text(output) + verdict_text(code)
}

/// Logs a quick compilation of `file` under `headers` and says whether it
/// succeeded.
pub fn log_try(log: &mut String, file: &str, headers: &Vec<String>, finished: &Finished) -> (ok:
    bool)
    ensures
        final(log)@ == old(log)@ + try_text(
            file@,
            texts(headers@),
            finished.output@,
            finished.code,
        ),
        ok == succeeded(finished.code),
        timed_out(finished.code) ==> !ok,
{
    let ghost start = log@;
    log_head(log, "Try for file", file, headers);
    log_output(log, finished.output.as_str());
    let ok = log_verdict(log, finished.code);
    proof {
        let a = head_text("Try for file"@, file@, texts(headers@));
        let b = output_text(finished.output@);
        let c = verdict_text(finished.code);
        assert(start + a + b + c == start + (a + b + c));
    }
    ok
}

/// What a quick compilation gives: what the compiler wrote to its output,
/// where the run succeeded.
pub open spec fn try_result(code: Option<i32>, stdout: Seq<u8>) -> Result<Seq<u8>, ()> {
    if succeeded(code) {
        Ok(stdout)
    } else {
        Err(())
    }
}

/// Takes in a quick compilation of `file` under `headers`: the run is
/// logged, and what the compiler wrote to its output is handed on where
/// the run succeeded. A run that failed, or that was ended for taking too
/// long, gives nothing, and the log says so.
pub fn try_compile(
    file: &str,
    headers: &Vec<String>,
    finished: &Finished,
    stdout: Vec<u8>,
    log: &mut String,
) -> (out: Result<Vec<u8>, ()>)
    ensures
        final(log)@ == old(log)@ + try_text(
            file@,
            texts(headers@),
            finished.output@,
            finished.code,
        ),
        match out {
            Ok(bytes) => try_result(finished.code, stdout@) == Ok::<Seq<u8>, ()>(bytes@),
            Err(_) => try_result(finished.code, stdout@) is Err,
        },
        timed_out(finished.code) ==> out is Err,
{
    if log_try(log, file, headers, finished) {
        Ok(stdout)
    } else {
        Err(())
    }
}

} // verus!
