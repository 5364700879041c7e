//! Working-directory support: building the in-shell `cd` command injected
//! into a pooled shell, and parsing the output of the external cwd probe.

use vstd::prelude::*;

verus! {

/// How one byte of a directory path appears inside the single-quoted shell
/// word: a single quote closes the quote, adds an escaped quote and reopens
/// (`'` becomes `'\''`); every other byte stands as it is.
pub open spec fn escape_byte(b: u8) -> Seq<u8> {
    if b == 39 {
        seq![39u8, 92u8, 39u8, 39u8]
    } else {
        seq![b]
    }
}

/// The directory bytes with every single quote escaped for the inside of a
/// single-quoted shell word.
pub open spec fn escape_single_quotes(dir: Seq<u8>) -> Seq<u8>
    decreases dir.len(),
{
    if dir.len() == 0 {
        Seq::empty()
    } else {
        escape_single_quotes(dir.drop_last()) + escape_byte(dir.last())
    }
}

/// The exact bytes written to a pooled shell to move it into `dir` and
/// clear the screen: <code> cd '&lt;escaped&gt;' && clear\n</code>. The
/// leading space keeps the command out of shell history under
/// `HISTCONTROL=ignorespace` / `HIST_IGNORE_SPACE`.
pub open spec fn cd_command_spec(dir: Seq<u8>) -> Seq<u8> {
    seq![32u8, 99u8, 100u8, 32u8, 39u8] + escape_single_quotes(dir) + seq![
        39u8,
        32u8,
        38u8,
        38u8,
        32u8,
        99u8,
        108u8,
        101u8,
        97u8,
        114u8,
        10u8,
    ]
}

/// Build the `cd` command injected into a pooled shell for the given
/// directory path.
pub fn cd_command(dir: &[u8]) -> (cmd: Vec<u8>)
    ensures
        cmd@ == cd_command_spec(dir@),
{
    let mut cmd: Vec<u8> = Vec::new();
    // " cd '"
    cmd.push(32);
    cmd.push(99);
    cmd.push(100);
    cmd.push(32);
    cmd.push(39);
    let ghost prefix = cmd@;

    let mut i: usize = 0;
    while i < dir.len()
        invariant
            i <= dir@.len(),
            cmd@ == prefix + escape_single_quotes(dir@.subrange(0, i as int)),
        decreases dir@.len() - i,
    {
        let b = dir[i];
        if b == 39 {
            cmd.push(39);
            cmd.push(92);
            cmd.push(39);
            cmd.push(39);
        } else {
            cmd.push(b);
        }
        proof {
            let part = dir@.subrange(0, i + 1);
            assert(part.drop_last() =~= dir@.subrange(0, i as int));
            assert(part.last() == dir@[i as int]);
            assert(cmd@ =~= prefix + escape_single_quotes(part));
        }
        i += 1;
    }
    proof {
        assert(dir@.subrange(0, dir@.len() as int) =~= dir@);
    }
    // "' && clear\n"
    cmd.push(39);
    cmd.push(32);
    cmd.push(38);
    cmd.push(38);
    cmd.push(32);
    cmd.push(99);
    cmd.push(108);
    cmd.push(101);
    cmd.push(97);
    cmd.push(114);
    cmd.push(10);
    proof {
        assert(cmd@ =~= cd_command_spec(dir@));
    }
    cmd
}

/// The position of the line break that ends the line starting at `j`: the
/// first newline at or after `j`, or the end of the buffer.
pub open spec fn line_end(out: Seq<u8>, j: int) -> int
    decreases out.len() - j,
{
    if j < 0 || j >= out.len() {
        out.len() as int
    } else if out[j] == 10 {
        j
    } else {
        line_end(out, j + 1)
    }
}

/// The path reported by the cwd probe, scanning from position `i`:
/// the remainder of the first line that starts with the `n` field marker.
/// `at_line_start` says whether `i` begins a line.
pub open spec fn probe_scan(out: Seq<u8>, i: int, at_line_start: bool) -> Option<Seq<u8>>
    decreases out.len() - i,
{
    if i < 0 || i >= out.len() {
        None
    } else if at_line_start && out[i] == 110 {
        Some(out.subrange(i + 1, line_end(out, i + 1)))
    } else {
        probe_scan(out, i + 1, out[i] == 10)
    }
}

/// The path reported by the cwd probe: `lsof -Fn` prefixes the name field
/// with `n`, so the answer is the remainder of the first line starting
/// with that marker.
pub open spec fn probe_path_spec(out: Seq<u8>) -> Option<Seq<u8>> {
    probe_scan(out, 0, true)
}

/// `line_end` is where the characterisation says it is.
proof fn lemma_line_end_at(out: Seq<u8>, a: int, b: int)
    requires
        0 <= a <= b <= out.len(),
        b == out.len() || out[b] == 10,
        forall|k: int| a <= k < b ==> out[k] != 10,
    ensures
        line_end(out, a) == b,
    decreases b - a,
{
    if a < b {
        lemma_line_end_at(out, a + 1, b);
    }
}

/// Parse the cwd probe's captured output: the first line starting with the
/// `n` field marker carries the working directory's path.
pub fn parse_probe_output(out: &[u8]) -> (r: Option<Vec<u8>>)
    ensures
        r is Some <==> probe_path_spec(out@) is Some,
        r matches Some(p) ==> probe_path_spec(out@) matches Some(q) && p@ == q,
{
    let mut i: usize = 0;
    let mut at_line_start = true;
    while i < out.len()
        invariant
            i <= out@.len(),
            probe_scan(out@, 0, true) == probe_scan(out@, i as int, at_line_start),
        decreases out@.len() - i,
    {
        let b = out[i];
        if at_line_start && b == 110 {
            // Collect the rest of this line.
            let mut path: Vec<u8> = Vec::new();
            let mut j: usize = i + 1;
            while j < out.len() && out[j] != 10
                invariant
                    i + 1 <= j <= out@.len(),
                    path@ == out@.subrange(i + 1, j as int),
                    forall|k: int| i + 1 <= k < j ==> out@[k] != 10,
                decreases out@.len() - j,
            {
                path.push(out[j]);
                proof {
                    assert(path@ =~= out@.subrange(i + 1, j + 1));
                }
                j += 1;
            }
            proof {
                lemma_line_end_at(out@, i + 1, j as int);
            }
            return Some(path);
        }
        at_line_start = b == 10;
        i += 1;
    }
    None
}

} // verus!
