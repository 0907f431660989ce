//! Lin–Kernighan through the external LKH solver: the problem is written in
//! TSPLIB form, LKH is run once, and its tour file is read back.
use vstd::prelude::*;
use crate::strategies::StepPlan;
use crate::text::{
    chars_of, has_prefix, lines_spec, parse_i64, parse_i64_spec, starts_with, trim_bounds, trim_spec,
};
use crate::tour::{extend_with_range, identity_spec, push_range};

verus! {

/// State of the LKH strategy.
pub struct LinKernighan {
    /// Whether LKH has already produced the tour.
    pub solved: bool,
    /// The tour produced by LKH.
    pub solved_path: Vec<usize>,
    /// Path of the LKH executable.
    pub lkh_path: String,
    /// Directory for the problem, parameter and tour files.
    pub work_dir: String,
}

/// What one line of an LKH tour file says: `None` for a blank line, a
/// comment, a header (`NAME`, `COMMENT`, `TYPE`, `DIMENSION`,
/// `TOUR_SECTION`, `EOF`) or anything that is not an integer; otherwise the
/// integer.
pub open spec fn tour_line_value(line: Seq<char>) -> Option<int> {
    let t = trim_spec(line);
    if t.len() == 0 || starts_with(t, seq!['#']) || starts_with(t, seq!['N', 'A', 'M', 'E'])
        || starts_with(t, seq!['C', 'O', 'M', 'M', 'E', 'N', 'T']) || starts_with(
        t,
        seq!['T', 'Y', 'P', 'E'],
    ) || starts_with(t, seq!['D', 'I', 'M', 'E', 'N', 'S', 'I', 'O', 'N']) || starts_with(
        t,
        seq!['T', 'O', 'U', 'R', '_', 'S', 'E', 'C', 'T', 'I', 'O', 'N'],
    ) || starts_with(t, seq!['E', 'O', 'F']) {
        None
    } else {
        parse_i64_spec(t)
    }
}

/// The node indices read from the first `k` lines: each positive entry `v`
/// names node `v - 1`, other integers are skipped, and `-1` ends the
/// tour (the flag says that it has ended).
pub open spec fn scan_tour_lines(lines: Seq<Seq<char>>, k: nat) -> (Seq<usize>, bool)
    decreases k,
{
    if k == 0 {
        (Seq::empty(), false)
    } else {
        let prev = scan_tour_lines(lines, (k - 1) as nat);
        if prev.1 {
            prev
        } else {
            match tour_line_value(lines[k - 1]) {
                Some(v) => if v == -1 {
                    (prev.0, true)
                } else if v > 0 {
                    (prev.0.push((v - 1) as usize), false)
                } else {
                    prev
                },
                None => prev,
            }
        }
    }
}

/// The tour that an LKH tour file describes for `n` nodes; a file that does
/// not list exactly `n` entries gives the identity tour.
pub open spec fn tour_from_text_spec(text: Seq<char>, n: nat) -> Seq<usize> {
    let lines = lines_spec(text);
    let idx = scan_tour_lines(lines, lines.len()).0;
    if idx.len() == n {
        idx
    } else {
        identity_spec(n)
    }
}

proof fn lemma_scan_prefix(a: Seq<Seq<char>>, b: Seq<Seq<char>>, k: nat)
    requires
        k <= a.len(),
        k <= b.len(),
        forall|q: int| 0 <= q < k ==> a[q] == b[q],
    ensures
        scan_tour_lines(a, k) == scan_tour_lines(b, k),
    decreases k,
{
    if k > 0 {
        lemma_scan_prefix(a, b, (k - 1) as nat);
    }
}

/// Reads one line of a tour file (see [`tour_line_value`]).
fn tour_line(line: &Vec<char>) -> (r: Option<i64>)
    ensures
        match tour_line_value(line@) {
            Some(v) => r == Some(v as i64),
            None => r is None,
        },
{
    let (lo, hi) = trim_bounds(line);
    if lo == hi || has_prefix(line, lo, hi, &['#']) || has_prefix(line, lo, hi, &['N', 'A', 'M', 'E'])
        || has_prefix(line, lo, hi, &['C', 'O', 'M', 'M', 'E', 'N', 'T']) || has_prefix(
        line,
        lo,
        hi,
        &['T', 'Y', 'P', 'E'],
    ) || has_prefix(line, lo, hi, &['D', 'I', 'M', 'E', 'N', 'S', 'I', 'O', 'N']) || has_prefix(
        line,
        lo,
        hi,
        &['T', 'O', 'U', 'R', '_', 'S', 'E', 'C', 'T', 'I', 'O', 'N'],
    ) || has_prefix(line, lo, hi, &['E', 'O', 'F']) {
        proof {
            assert(seq!['#'] =~= ['#']@);
            assert(seq!['N', 'A', 'M', 'E'] =~= ['N', 'A', 'M', 'E']@);
            assert(seq!['C', 'O', 'M', 'M', 'E', 'N', 'T'] =~= ['C', 'O', 'M', 'M', 'E', 'N', 'T']@);
            assert(seq!['T', 'Y', 'P', 'E'] =~= ['T', 'Y', 'P', 'E']@);
            assert(seq!['D', 'I', 'M', 'E', 'N', 'S', 'I', 'O', 'N'] =~= [
                'D',
                'I',
                'M',
                'E',
                'N',
                'S',
                'I',
                'O',
                'N',
            ]@);
            assert(seq!['T', 'O', 'U', 'R', '_', 'S', 'E', 'C', 'T', 'I', 'O', 'N'] =~= [
                'T',
                'O',
                'U',
                'R',
                '_',
                'S',
                'E',
                'C',
                'T',
                'I',
                'O',
                'N',
            ]@);
            assert(seq!['E', 'O', 'F'] =~= ['E', 'O', 'F']@);
        }
        return None;
    }
    proof {
        assert(seq!['#'] =~= ['#']@);
        assert(seq!['N', 'A', 'M', 'E'] =~= ['N', 'A', 'M', 'E']@);
        assert(seq!['C', 'O', 'M', 'M', 'E', 'N', 'T'] =~= ['C', 'O', 'M', 'M', 'E', 'N', 'T']@);
        assert(seq!['T', 'Y', 'P', 'E'] =~= ['T', 'Y', 'P', 'E']@);
        assert(seq!['D', 'I', 'M', 'E', 'N', 'S', 'I', 'O', 'N'] =~= [
            'D',
            'I',
            'M',
            'E',
            'N',
            'S',
            'I',
            'O',
            'N',
        ]@);
        assert(seq!['T', 'O', 'U', 'R', '_', 'S', 'E', 'C', 'T', 'I', 'O', 'N'] =~= [
            'T',
            'O',
            'U',
            'R',
            '_',
            'S',
            'E',
            'C',
            'T',
            'I',
            'O',
            'N',
        ]@);
        assert(seq!['E', 'O', 'F'] =~= ['E', 'O', 'F']@);
    }
    parse_i64(line, lo, hi)
}

impl LinKernighan {
    pub fn new() -> (s: Self)
        ensures
            !s.solved,
            s.solved_path@.len() == 0,
            s.lkh_path@ == "./LKH-3.0.14/LKH"@,
            s.work_dir@ == "/tmp/lkh_work"@,
    {
        LinKernighan {
            solved: false,
            solved_path: Vec::new(),
            lkh_path: "./LKH-3.0.14/LKH".to_owned(),
            work_dir: "/tmp/lkh_work".to_owned(),
        }
    }

    /// Forgets the solved tour; the paths are kept.
    pub fn reset(&mut self)
        ensures
            !final(self).solved,
            final(self).solved_path@.len() == 0,
            final(self).lkh_path@ == old(self).lkh_path@,
            final(self).work_dir@ == old(self).work_dir@,
    {
        self.solved = false;
        self.solved_path.clear();
    }

    /// One step over a problem of `n` nodes: once solved, the tour is
    /// replaced by the stored solution and the run ends; fewer than three
    /// nodes are appended in order and the run ends; otherwise LKH is to be
    /// run by the caller.
    pub fn plan_step(&mut self, path: &mut Vec<usize>, n: usize) -> (plan: StepPlan)
        ensures
            *final(self) == *old(self),
            old(self).solved ==> plan is Finished && final(path)@ == old(self).solved_path@,
            !old(self).solved && n < 3 ==> plan is Finished && final(path)@ == old(path)@
                + identity_spec(n as nat),
            !old(self).solved && n >= 3 ==> plan is Solve && final(path)@ == old(path)@,
    {
        if self.solved {
            let mut copy: Vec<usize> = Vec::new();
            push_range(&mut copy, &self.solved_path, 0, self.solved_path.len());
            assert(copy@ =~= self.solved_path@);
            *path = copy;
            return StepPlan::Finished;
        }
        if n < 3 {
            extend_with_range(path, n);
            return StepPlan::Finished;
        }
        StepPlan::Solve
    }

    /// The tour described by the text of an LKH tour file for a problem of
    /// `n` nodes: the listed entries, one-based, up to the closing `-1`; the
    /// identity tour when the file does not list exactly `n` entries.
    pub fn solution_from_text(content: &str, n: usize) -> (tour: Vec<usize>)
        ensures
            tour@ == tour_from_text_spec(content@, n as nat),
    {
        let chars = chars_of(content);
        let ghost text = chars@;
        let mut indices: Vec<usize> = Vec::new();
        let mut stopped = false;
        let mut line: Vec<char> = Vec::new();
        let mut k: usize = 0;
        proof {
            assert(text.take(0) =~= Seq::<char>::empty());
        }
        while k < chars.len()
            invariant
                k <= text.len(),
                chars@ == text,
                lines_spec(text.take(k as int)).last() == line@,
                lines_spec(text.take(k as int)).len() >= 1,
                (indices@, stopped) == scan_tour_lines(
                    lines_spec(text.take(k as int)),
                    (lines_spec(text.take(k as int)).len() - 1) as nat,
                ),
            decreases text.len() - k,
        {
            let c = chars[k];
            let ghost old_lines = lines_spec(text.take(k as int));
            assert(text.take(k + 1).drop_last() =~= text.take(k as int));
            assert(text.take(k + 1).last() == c);
            let ghost new_lines = lines_spec(text.take(k + 1));
            if c == '\n' {
                proof {
                    assert(new_lines == old_lines.push(Seq::<char>::empty()));
                    lemma_scan_prefix(new_lines, old_lines, (old_lines.len() - 1) as nat);
                }
                if !stopped {
                    match tour_line(&line) {
                        Some(v) => {
                            if v == -1 {
                                stopped = true;
                            } else if v > 0 {
                                indices.push((v - 1) as usize);
                            }
                        },
                        None => {},
                    }
                }
                line = Vec::new();
                proof {
                    assert(new_lines[old_lines.len() - 1] == old_lines.last());
                }
            } else {
                line.push(c);
                proof {
                    assert(new_lines == old_lines.update(
                        old_lines.len() - 1,
                        old_lines.last().push(c),
                    ));
                    lemma_scan_prefix(new_lines, old_lines, (old_lines.len() - 1) as nat);
                }
            }
            k = k + 1;
        }
        proof {
            assert(text.take(k as int) =~= text);
        }
        if !stopped {
            match tour_line(&line) {
                Some(v) => {
                    if v == -1 {
                        stopped = true;
                    } else if v > 0 {
                        indices.push((v - 1) as usize);
                    }
                },
                None => {},
            }
        }
        if indices.len() != n {
            let mut all: Vec<usize> = Vec::new();
            extend_with_range(&mut all, n);
            assert(all@ =~= identity_spec(n as nat));
            return all;
        }
        indices
    }

    /// Stores the tour produced by LKH and makes it the current tour.
    pub fn record_solution(&mut self, path: &mut Vec<usize>, solution: Vec<usize>)
        ensures
            final(self).solved,
            final(self).solved_path@ == solution@,
            final(path)@ == solution@,
            final(self).lkh_path@ == old(self).lkh_path@,
            final(self).work_dir@ == old(self).work_dir@,
    {
        let mut copy: Vec<usize> = Vec::new();
        push_range(&mut copy, &solution, 0, solution.len());
        assert(copy@ =~= solution@);
        self.solved_path = solution;
        *path = copy;
        self.solved = true;
    }
}

} // verus!
