//! The per-source emission loop: header and separator formatting, head
//! extraction, diagnostic reporting, and failure isolation.

use vstd::prelude::*;
use vstd::string::*;
use vstd::utf8::encode_utf8;

use crate::config::Config;
use crate::head::concat_all;
use crate::head::head_bytes;
use crate::head::head_lines;
use crate::head::lemma_concat_all_push;
use crate::head::spec_head_bytes;
use crate::head::spec_head_lines;

verus! {

/// What one run produces: the output bytes, the diagnostic lines for the
/// error channel in source order, and whether every source opened.
pub struct RunOutput {
    /// The bytes for the output channel.
    pub output: Vec<u8>,
    /// One line per failed source, for the error channel.
    pub diagnostics: Vec<String>,
    /// True only if every source opened successfully.
    pub success: bool,
}

/// The head of one source's content under the active mode of `cfg`.
pub open spec fn spec_head_of(cfg: Config, data: Seq<u8>) -> Seq<u8> {
    match cfg.bytes {
        Some(n) => spec_head_bytes(data, n as nat),
        None => spec_head_lines(data, cfg.lines as nat),
    }
}

/// The text of the header line announcing one source.
pub open spec fn spec_header_text(name: Seq<char>) -> Seq<char> {
    "==> "@ + name + " <=="@
}

/// The bytes of one header line, terminator included.
pub open spec fn spec_header_bytes(name: Seq<char>) -> Seq<u8> {
    encode_utf8(spec_header_text(name)) + seq![10u8]
}

/// The text of the diagnostic line for one failed source.
pub open spec fn spec_diag_text(name: Seq<char>, cause: Seq<char>) -> Seq<char> {
    "head: "@ + name + ": "@ + cause
}

/// The output bytes that source `i` of `count` contributes: nothing if it
/// failed to open; otherwise a separating blank line for every source after
/// the first, a header when more than one source was named, and the head of
/// its content.
pub open spec fn spec_segment(
    cfg: Config,
    name: String,
    out: Result<Vec<u8>, String>,
    i: int,
    count: int,
) -> Seq<u8> {
    match out {
        Ok(data) => (if i > 0 {
            seq![10u8]
        } else {
            Seq::<u8>::empty()
        }) + (if count > 1 {
            spec_header_bytes(name@)
        } else {
            Seq::<u8>::empty()
        }) + spec_head_of(cfg, data@),
        Err(_) => Seq::<u8>::empty(),
    }
}

/// The per-source contributions of a whole run, in source order.
pub open spec fn spec_segments(cfg: Config, outs: Seq<Result<Vec<u8>, String>>) -> Seq<Seq<u8>> {
    Seq::new(outs.len(), |i: int| spec_segment(cfg, cfg.files@[i], outs[i], i, outs.len() as int))
}

/// The output bytes of a whole run.
pub open spec fn spec_output(cfg: Config, outs: Seq<Result<Vec<u8>, String>>) -> Seq<u8> {
    concat_all(spec_segments(cfg, outs))
}

/// The diagnostic lines of a run: one per failed source, in source order.
pub open spec fn spec_diags(files: Seq<String>, outs: Seq<Result<Vec<u8>, String>>) -> Seq<
    Seq<char>,
>
    decreases outs.len(),
{
    if outs.len() == 0 {
        Seq::empty()
    } else {
        let n = outs.len() - 1;
        spec_diags(files.take(n), outs.take(n)) + (match outs[n] {
            Ok(_) => Seq::<Seq<char>>::empty(),
            Err(cause) => seq![spec_diag_text(files[n]@, cause@)],
        })
    }
}

/// A run succeeds only when every source opened.
pub open spec fn spec_success(outs: Seq<Result<Vec<u8>, String>>) -> bool {
    forall|i: int| 0 <= i < outs.len() ==> outs[i] is Ok
}

/// For a single source that opens, the output is exactly the head of its
/// content under the active mode: the first `bytes` bytes in byte mode, the
/// first `lines` line records in line mode, with no header and no
/// separator.
pub proof fn lemma_single_source_output(cfg: Config, outs: Seq<Result<Vec<u8>, String>>)
    requires
        cfg.wf(),
        outs.len() == cfg.files@.len(),
        outs.len() == 1,
        outs[0] is Ok,
    ensures
        spec_output(cfg, outs) == spec_head_of(cfg, outs[0]->Ok_0@),
{
    let head = spec_head_of(cfg, outs[0]->Ok_0@);
    assert(spec_segments(cfg, outs)[0] == spec_segment(cfg, cfg.files@[0], outs[0], 0, 1));
    assert(Seq::<u8>::empty() + Seq::<u8>::empty() + head =~= head);
    assert(spec_segments(cfg, outs).drop_first() =~= Seq::<Seq<u8>>::empty());
    assert(concat_all(spec_segments(cfg, outs).drop_first()) == Seq::<u8>::empty());
    assert(spec_output(cfg, outs) == head + Seq::<u8>::empty());
    assert(head + Seq::<u8>::empty() =~= head);
}

/// When every one of `m > 1` sources opens, the output is exactly, in
/// source order, one segment per source, each carrying one header for that
/// source and each preceded by a blank line except the first.
pub proof fn lemma_multi_source_headers(cfg: Config, outs: Seq<Result<Vec<u8>, String>>)
    requires
        cfg.wf(),
        outs.len() == cfg.files@.len(),
        outs.len() > 1,
        forall|i: int| 0 <= i < outs.len() ==> outs[i] is Ok,
    ensures
        spec_output(cfg, outs) == concat_all(
            Seq::new(
                outs.len(),
                |i: int|
                    (if i > 0 {
                        seq![10u8]
                    } else {
                        Seq::<u8>::empty()
                    }) + spec_header_bytes(cfg.files@[i]@) + spec_head_of(cfg, outs[i]->Ok_0@),
            ),
        ),
{
    assert(spec_segments(cfg, outs) =~= Seq::new(
        outs.len(),
        |i: int|
            (if i > 0 {
                seq![10u8]
            } else {
                Seq::<u8>::empty()
            }) + spec_header_bytes(cfg.files@[i]@) + spec_head_of(cfg, outs[i]->Ok_0@),
    ));
}

/// With every source open, no diagnostic line is produced.
proof fn lemma_diags_all_ok(files: Seq<String>, outs: Seq<Result<Vec<u8>, String>>)
    requires
        forall|i: int| 0 <= i < outs.len() ==> outs[i] is Ok,
    ensures
        spec_diags(files, outs) == Seq::<Seq<char>>::empty(),
    decreases outs.len(),
{
    if outs.len() > 0 {
        let n = outs.len() - 1;
        assert(forall|i: int| 0 <= i < n ==> outs.take(n)[i] == outs[i]);
        lemma_diags_all_ok(files.take(n), outs.take(n));
        assert(outs[n] is Ok);
        assert(spec_diags(files, outs) =~= Seq::<Seq<char>>::empty());
    }
}

/// A source that fails to open produces exactly one diagnostic line, naming
/// it, and takes nothing from the other sources: the run fails overall, yet
/// every other source still contributes its full segment, in order.
pub proof fn lemma_failed_source_isolated(
    cfg: Config,
    outs: Seq<Result<Vec<u8>, String>>,
    j: int,
)
    requires
        cfg.wf(),
        outs.len() == cfg.files@.len(),
        0 <= j < outs.len(),
        outs[j] is Err,
        forall|i: int| 0 <= i < outs.len() && i != j ==> outs[i] is Ok,
    ensures
        spec_diags(cfg.files@, outs) == seq![spec_diag_text(cfg.files@[j]@, outs[j]->Err_0@)],
        !spec_success(outs),
        spec_output(cfg, outs) == concat_all(
            Seq::new(
                outs.len(),
                |i: int|
                    if i == j {
                        Seq::<u8>::empty()
                    } else {
                        (if i > 0 {
                            seq![10u8]
                        } else {
                            Seq::<u8>::empty()
                        }) + (if outs.len() > 1 {
                            spec_header_bytes(cfg.files@[i]@)
                        } else {
                            Seq::<u8>::empty()
                        }) + spec_head_of(cfg, outs[i]->Ok_0@)
                    },
            ),
        ),
{
    lemma_diags_single_failure(cfg.files@, outs, j);
    assert(spec_segments(cfg, outs) =~= Seq::new(
        outs.len(),
        |i: int|
            if i == j {
                Seq::<u8>::empty()
            } else {
                (if i > 0 {
                    seq![10u8]
                } else {
                    Seq::<u8>::empty()
                }) + (if outs.len() > 1 {
                    spec_header_bytes(cfg.files@[i]@)
                } else {
                    Seq::<u8>::empty()
                }) + spec_head_of(cfg, outs[i]->Ok_0@)
            },
    ));
}

/// The diagnostics of a run whose single failure is source `j` are exactly
/// the one line for `j`.
proof fn lemma_diags_single_failure(files: Seq<String>, outs: Seq<Result<Vec<u8>, String>>, j: int)
    requires
        files.len() == outs.len(),
        0 <= j < outs.len(),
        outs[j] is Err,
        forall|i: int| 0 <= i < outs.len() && i != j ==> outs[i] is Ok,
    ensures
        spec_diags(files, outs) == seq![spec_diag_text(files[j]@, outs[j]->Err_0@)],
    decreases outs.len(),
{
    let n = outs.len() - 1;
    assert(forall|i: int| 0 <= i < n ==> outs.take(n)[i] == outs[i]);
    if j == n {
        lemma_diags_all_ok(files.take(n), outs.take(n));
        assert(spec_diags(files, outs) =~= seq![spec_diag_text(files[j]@, outs[j]->Err_0@)]);
    } else {
        lemma_diags_single_failure(files.take(n), outs.take(n), j);
        assert(files.take(n)[j] == files[j]);
        assert(spec_diags(files, outs) =~= seq![spec_diag_text(files[j]@, outs[j]->Err_0@)]);
    }
}

/// Renders the header line announcing one source, without its terminator.
pub fn header_line(reference: &str) -> (r: String)
    ensures
        r@ == spec_header_text(reference@),
{
    let mut h = "==> ".to_owned();
    h.append(reference);
    h.append(" <==");
    h
}

/// Renders the diagnostic line for one failed source.
pub fn diagnostic_line(reference: &str, cause: &str) -> (r: String)
    ensures
        r@ == spec_diag_text(reference@, cause@),
{
    let mut d = "head: ".to_owned();
    d.append(reference);
    d.append(": ");
    d.append(cause);
    d
}

/// Drives one whole run over the open results of the sources of `cfg`, in
/// order: a failed source contributes one diagnostic line and no output and
/// the run goes on; an opened source contributes its separator, header and
/// head. The run counts as a success only if every source opened.
pub fn render(cfg: &Config, outs: &Vec<Result<Vec<u8>, String>>) -> (r: RunOutput)
    requires
        cfg.wf(),
        outs@.len() == cfg.files@.len(),
    ensures
        r.output@ == spec_output(*cfg, outs@),
        r.diagnostics@.map_values(|d: String| d@) == spec_diags(cfg.files@, outs@),
        r.success == spec_success(outs@),
{
    let count = outs.len();
    let mut output: Vec<u8> = Vec::new();
    let mut diagnostics: Vec<String> = Vec::new();
    let mut success = true;
    let ghost segs = spec_segments(*cfg, outs@);
    let mut i: usize = 0;
    proof {
        assert(segs.take(0) =~= Seq::<Seq<u8>>::empty());
    }
    while i < count
        invariant
            count == outs@.len(),
            outs@.len() == cfg.files@.len(),
            cfg.wf(),
            0 <= i <= count,
            segs == spec_segments(*cfg, outs@),
            output@ == concat_all(segs.take(i as int)),
            diagnostics@.map_values(|d: String| d@) == spec_diags(
                cfg.files@.take(i as int),
                outs@.take(i as int),
            ),
            success == spec_success(outs@.take(i as int)),
        decreases count - i,
    {
        let ghost old_output = output@;
        let ghost old_diags = diagnostics@.map_values(|d: String| d@);
        match &outs[i] {
            Ok(data) => {
                if i > 0 {
                    output.push(10u8);
                }
                if count > 1 {
                    let h = header_line(cfg.files[i].as_str());
                    let mut hb: Vec<u8> = h.as_str().as_bytes_vec();
                    output.append(&mut hb);
                    output.push(10u8);
                }
                let mut body: Vec<u8> = match cfg.bytes {
                    Some(n) => head_bytes(data, n),
                    None => head_lines(data, cfg.lines),
                };
                output.append(&mut body);
                proof {
                    assert(output@ =~= old_output + segs[i as int]);
                    assert(spec_diags(cfg.files@.take(i + 1), outs@.take(i + 1)) =~= old_diags) by {
                        assert(cfg.files@.take(i + 1).take(i as int) =~= cfg.files@.take(i as int));
                        assert(outs@.take(i + 1).take(i as int) =~= outs@.take(i as int));
                        assert(outs@.take(i + 1)[i as int] is Ok);
                        assert(old_diags + Seq::<Seq<char>>::empty() =~= old_diags);
                    }
                }
            },
            Err(cause) => {
                success = false;
                let d = diagnostic_line(cfg.files[i].as_str(), cause.as_str());
                diagnostics.push(d);
                proof {
                    assert(output@ =~= old_output + segs[i as int]);
                    assert(spec_diags(cfg.files@.take(i + 1), outs@.take(i + 1)) =~= old_diags
                        + seq![spec_diag_text(cfg.files@[i as int]@, outs@[i as int]->Err_0@)]) by {
                        assert(cfg.files@.take(i + 1).take(i as int) =~= cfg.files@.take(i as int));
                        assert(outs@.take(i + 1).take(i as int) =~= outs@.take(i as int));
                        assert(outs@.take(i + 1)[i as int] == outs@[i as int]);
                        assert(cfg.files@.take(i + 1)[i as int] == cfg.files@[i as int]);
                    }
                    assert(diagnostics@.map_values(|d2: String| d2@) =~= old_diags + seq![
                        spec_diag_text(cfg.files@[i as int]@, outs@[i as int]->Err_0@)]);
                }
            },
        }
        proof {
            lemma_concat_all_push(segs.take(i as int), segs[i as int]);
            assert(segs.take(i + 1) =~= segs.take(i as int).push(segs[i as int]));
            assert(spec_success(outs@.take(i + 1)) == (spec_success(outs@.take(i as int)) && outs@[i as int] is Ok)) by {
                assert(outs@.take(i + 1).take(i as int) =~= outs@.take(i as int));
                if spec_success(outs@.take(i as int)) && outs@[i as int] is Ok {
                    assert forall|j: int| 0 <= j < i + 1 implies #[trigger] outs@.take(i + 1)[j] is Ok by {
                        if j < i {
                            assert(outs@.take(i as int)[j] is Ok);
                        }
                    }
                }
            }
        }
        i = i + 1;
    }
    proof {
        assert(segs.take(count as int) =~= segs);
        assert(cfg.files@.take(count as int) =~= cfg.files@);
        assert(outs@.take(count as int) =~= outs@);
    }
    RunOutput { output, diagnostics, success }
}

} // verus!
