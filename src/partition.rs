//! Partitioned ingest: splitting a delimited text file among the workers of a
//! group so that each loads a contiguous, line-aligned byte range of it, and
//! reading delimited records from bytes.
//!
//! Worker `r` of `w` has the raw window that starts at byte `r * t / w` of a
//! file of `t` bytes. Its effective range begins just after the first line
//! terminator at or beyond its raw start, and ends where the next worker's
//! begins; the last worker's ends at the end of the file. Worker 0's range
//! therefore begins just after the header line.
use vstd::prelude::*;
use vstd::arithmetic::div_mod::lemma_div_is_ordered;

verus! {

/// The line terminator.
pub const NEWLINE: u8 = 10;

/// The first byte of worker `rank`'s raw window in a file of `total` bytes.
pub open spec fn raw_start(total: nat, n_workers: nat, rank: nat) -> nat {
    (rank * total / n_workers) as nat
}

/// The position just after the first line terminator at or beyond `from`,
/// or the end of `b` if there is none.
pub open spec fn line_end_from(b: Seq<u8>, from: int) -> int
    decreases b.len() - from,
{
    if from >= b.len() {
        b.len() as int
    } else if b[from] == NEWLINE {
        from + 1
    } else {
        line_end_from(b, from + 1)
    }
}

/// Where worker `rank`'s effective range begins; `boundary(b, w, w)` is the end of the file.
pub open spec fn boundary(b: Seq<u8>, n_workers: nat, rank: nat) -> int {
    if rank >= n_workers {
        b.len() as int
    } else {
        line_end_from(b, raw_start(b.len(), n_workers, rank) as int)
    }
}

/// Byte `p` lies in worker `rank`'s effective range.
pub open spec fn owns(b: Seq<u8>, n_workers: nat, rank: nat, p: int) -> bool {
    boundary(b, n_workers, rank) <= p < boundary(b, n_workers, rank + 1)
}

/// Some worker's effective range holds byte `p`.
pub open spec fn owned(b: Seq<u8>, n_workers: nat, p: int) -> bool {
    exists|r: nat| r < n_workers && #[trigger] owns(b, n_workers, r, p)
}

/// The end of the header line.
pub open spec fn header_end(b: Seq<u8>) -> int {
    line_end_from(b, 0)
}

/// The records that a delimited-text reader makes of `b`, one sequence of
/// fields per record, or `None` where the reader fails.
pub uninterp spec fn csv_records(b: Seq<u8>) -> Option<Seq<Seq<Seq<char>>>>;

/// The declared error type of the delimited-text reader.
#[verifier::external_type_specification]
#[verifier::external_body]
pub struct ExCsvError(csv::Error);

/// Relies on `csv::ReaderBuilder` (no header row, whitespace trimmed around
/// every field, conventional quoting) and `Reader::records`: the records it
/// makes of the bytes depend on the bytes alone.
#[verifier::external_body]
pub(crate) fn read_records(b: &[u8]) -> (r: Result<Vec<Vec<String>>, csv::Error>)
    ensures
        match r {
            Ok(rows) => csv_records(b@) == Some(rows.deep_view()),
            Err(_) => csv_records(b@) is None,
        },
{
    let mut rdr = csv::ReaderBuilder::new()
        .has_headers(false)
        .trim(csv::Trim::All)
        .quoting(true)
        .from_reader(b);
    let mut rows = Vec::new();
    for record in rdr.records() {
        rows.push(record?.iter().map(|f| f.to_string()).collect());
    }
    Ok(rows)
}

/// The position just after the first line terminator at or beyond `from`,
/// or the length of `b` if there is none.
pub fn find_line_end(b: &[u8], from: usize) -> (r: usize)
    ensures
        r == line_end_from(b@, from as int),
{
    let mut p = from;
    while p < b.len()
        invariant
            from <= p,
            line_end_from(b@, p as int) == line_end_from(b@, from as int),
        decreases b@.len() - p,
    {
        if b[p] == NEWLINE {
            return p + 1;
        }
        p = p + 1;
    }
    b.len()
}

/// The first byte of worker `rank`'s raw window: `rank * total / n_workers`.
pub fn raw_window_start(total: usize, n_workers: usize, rank: usize) -> (r: usize)
    requires
        0 < n_workers,
        rank <= n_workers,
    ensures
        r == raw_start(total as nat, n_workers as nat, rank as nat),
        r <= total,
{
    proof {
        lemma_raw_start_ordered(total as nat, n_workers as nat, rank as nat, n_workers as nat);
        assert(n_workers as nat * total as nat / n_workers as nat == total) by (nonlinear_arith)
            requires n_workers > 0;
        assert((rank as nat) * (total as nat) <= (n_workers as nat) * (total as nat)) by (nonlinear_arith)
            requires rank <= n_workers;
        assert((n_workers as nat) * (total as nat) <= 0xffff_ffff_ffff_ffff * 0xffff_ffff_ffff_ffff) by (nonlinear_arith)
            requires n_workers <= 0xffff_ffff_ffff_ffff, total <= 0xffff_ffff_ffff_ffff;
    }
    let prod: u128 = rank as u128 * total as u128;
    (prod / n_workers as u128) as usize
}

/// The byte range `[begin, end)` of `content` that worker `rank` of
/// `n_workers` loads.
pub fn partition_bounds(content: &[u8], n_workers: usize, rank: usize) -> (r: (usize, usize))
    requires
        0 < n_workers,
        rank < n_workers,
    ensures
        r.0 == boundary(content@, n_workers as nat, rank as nat),
        r.1 == boundary(content@, n_workers as nat, rank as nat + 1),
        r.0 <= r.1 <= content@.len(),
{
    proof {
        lemma_boundary_ordered(content@, n_workers as nat, rank as nat, rank as nat + 1);
        lemma_boundary_ordered(content@, n_workers as nat, rank as nat + 1, n_workers as nat);
    }
    let begin = find_line_end(content, raw_window_start(content.len(), n_workers, rank));
    let end = if rank + 1 == n_workers {
        content.len()
    } else {
        find_line_end(content, raw_window_start(content.len(), n_workers, rank + 1))
    };
    (begin, end)
}

/// The ranges of the workers partition the bytes after the header line:
/// worker 0 begins just after it and the last worker ends at the end of the
/// file; every other boundary follows a line terminator; every byte after the
/// header belongs to exactly one worker; and a run of bytes without a line
/// terminator (a record and its terminator) never spans two workers.
pub proof fn lemma_partition_covers(b: Seq<u8>, w: nat)
    requires
        0 < w,
    ensures
        boundary(b, w, 0) == header_end(b),
        boundary(b, w, w) == b.len(),
        forall|r: nat| r < w ==> boundary(b, w, r) <= #[trigger] boundary(b, w, r + 1),
        forall|r: nat| 0 < r <= w ==> #[trigger] boundary(b, w, r) == b.len()
            || (0 < boundary(b, w, r) && b[boundary(b, w, r) - 1] == NEWLINE),
        forall|p: int| header_end(b) <= p < b.len() ==> #[trigger] owned(b, w, p),
        forall|p: int, r1: nat, r2: nat|
            r1 < r2 < w && #[trigger] owns(b, w, r1, p) ==> !(#[trigger] owns(b, w, r2, p)),
        forall|p: int, q: int, r: nat|
            r < w && 0 <= p <= q < b.len() && #[trigger] owns(b, w, r, p)
                && (forall|i: int| p <= i < q ==> b[i] != NEWLINE)
                ==> #[trigger] owns(b, w, r, q),
{
    assert(0 * b.len() / w == 0) by (nonlinear_arith)
        requires w > 0;
    assert forall|r: nat| r < w implies boundary(b, w, r) <= #[trigger] boundary(b, w, r + 1) by {
        lemma_boundary_ordered(b, w, r, r + 1);
    }
    assert(boundary(b, w, 0) == header_end(b));
    assert forall|r: nat| 0 < r <= w implies #[trigger] boundary(b, w, r) == b.len()
        || (0 < boundary(b, w, r) && b[boundary(b, w, r) - 1] == NEWLINE) by {
        if r < w {
            lemma_line_end_facts(b, raw_start(b.len(), w, r) as int);
        }
    }
    assert forall|p: int| header_end(b) <= p < b.len() implies #[trigger] owned(b, w, p) by {
        lemma_owner_from(b, w, p, 0);
    }
    assert forall|p: int, r1: nat, r2: nat|
        r1 < r2 < w && #[trigger] owns(b, w, r1, p) implies !(#[trigger] owns(b, w, r2, p)) by {
        lemma_boundary_ordered(b, w, r1 + 1, r2);
    }
    assert forall|p: int, q: int, r: nat|
        r < w && 0 <= p <= q < b.len() && #[trigger] owns(b, w, r, p)
            && (forall|i: int| p <= i < q ==> b[i] != NEWLINE)
            implies #[trigger] owns(b, w, r, q) by {
        let e = boundary(b, w, r + 1);
        if e <= q && e < b.len() {
            if r + 1 < w {
                lemma_line_end_facts(b, raw_start(b.len(), w, r + 1) as int);
            }
            assert(b[e - 1] == NEWLINE);
            assert(p <= e - 1 < q);
        }
    }
}

/// Some worker from `r` on owns byte `p`, when `p` lies at or after `r`'s boundary.
proof fn lemma_owner_from(b: Seq<u8>, w: nat, p: int, r: nat)
    requires
        0 < w,
        r < w,
        boundary(b, w, r) <= p < b.len(),
    ensures
        exists|o: nat| o < w && #[trigger] owns(b, w, o, p),
    decreases w - r,
{
    if p >= boundary(b, w, r + 1) {
        if r + 1 < w {
            lemma_owner_from(b, w, p, r + 1);
        }
    } else {
        assert(owns(b, w, r, p));
    }
}

/// Where the search for a line end starts moves forward, the line end does not move back.
proof fn lemma_line_end_ordered(b: Seq<u8>, f1: int, f2: int)
    requires
        0 <= f1 <= f2,
    ensures
        line_end_from(b, f1) <= line_end_from(b, f2),
        f2 <= line_end_from(b, f2) <= b.len() || f2 > b.len(),
    decreases f2 - f1,
{
    lemma_line_end_facts(b, f2);
    if f1 < f2 {
        lemma_line_end_facts(b, f1);
        if f1 < b.len() && b[f1] != NEWLINE {
            lemma_line_end_ordered(b, f1 + 1, f2);
        }
    }
}

/// A line end lies between the start of the search and the end of the
/// bytes, no terminator comes between them, and one ends it unless the
/// bytes do.
pub(crate) proof fn lemma_line_end_facts(b: Seq<u8>, from: int)
    requires
        0 <= from,
    ensures
        from <= b.len() ==> from <= line_end_from(b, from) <= b.len(),
        from > b.len() ==> line_end_from(b, from) == b.len(),
        from < b.len() ==> from < line_end_from(b, from),
        line_end_from(b, from) == b.len() || b[line_end_from(b, from) - 1] == NEWLINE,
        forall|i: int| from <= i < line_end_from(b, from) - 1 ==> b[i] != NEWLINE,
    decreases b.len() - from,
{
    if from < b.len() && b[from] != NEWLINE {
        lemma_line_end_facts(b, from + 1);
    }
}

/// Raw window starts grow with the rank.
proof fn lemma_raw_start_ordered(total: nat, w: nat, r1: nat, r2: nat)
    requires
        0 < w,
        r1 <= r2,
    ensures
        raw_start(total, w, r1) <= raw_start(total, w, r2),
{
    assert(r1 * total <= r2 * total) by (nonlinear_arith)
        requires r1 <= r2;
    lemma_div_is_ordered((r1 * total) as int, (r2 * total) as int, w as int);
}

/// Boundaries grow with the rank, and none lies past the end of the file.
proof fn lemma_boundary_ordered(b: Seq<u8>, w: nat, r1: nat, r2: nat)
    requires
        0 < w,
        r1 <= r2 <= w,
    ensures
        boundary(b, w, r1) <= boundary(b, w, r2) <= b.len(),
{
    if r1 < w {
        let s1 = raw_start(b.len(), w, r1) as int;
        lemma_raw_start_ordered(b.len(), w, r1, w);
        assert(w * b.len() / w == b.len()) by (nonlinear_arith)
            requires w > 0;
        lemma_line_end_facts(b, s1);
        if r2 < w {
            lemma_raw_start_ordered(b.len(), w, r1, r2);
            lemma_line_end_ordered(b, s1, raw_start(b.len(), w, r2) as int);
            lemma_raw_start_ordered(b.len(), w, r2, w);
            lemma_line_end_facts(b, raw_start(b.len(), w, r2) as int);
        }
    }
}

} // verus!
