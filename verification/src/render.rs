use vstd::prelude::*;

use crate::circuit::{op_valid, Circuit, CircuitSpec, Op};
use crate::text::{decimal, decimal_string};

verus! {

/// `k` copies of `c`.
pub open spec fn rep(c: char, k: nat) -> Seq<char> {
    Seq::new(k, |i: int| c)
}

/// The wire-crossing cell of a qubit row: `───`.
pub open spec fn wire_cell() -> Seq<char> {
    rep('─', 3)
}

/// The empty cell of a connector row: three spaces.
pub open spec fn blank_cell() -> Seq<char> {
    rep(' ', 3)
}

/// Connector row `i` (between qubits `i/2` and `i/2 + 1`) of a gate spanning
/// qubits `lo..=hi`: a vertical bar between them, blank elsewhere.
pub open spec fn connector_cell(lo: nat, hi: nat, i: nat) -> Seq<char> {
    if i / 2 >= lo && i / 2 < hi {
        seq!['│', ' ', ' ']
    } else {
        blank_cell()
    }
}

pub open spec fn min_nat(a: nat, b: nat) -> nat {
    if a <= b { a } else { b }
}

pub open spec fn max_nat(a: nat, b: nat) -> nat {
    if a >= b { a } else { b }
}

/// Row `i` of the column drawn for a single-qubit gate `sym` on `q`.
pub open spec fn single_cell(sym: Seq<char>, q: nat, i: nat) -> Seq<char> {
    if i == 2 * q {
        sym + rep('─', 2)
    } else if i % 2 == 0 {
        wire_cell()
    } else {
        blank_cell()
    }
}

/// Row `i` of the column drawn for CNOT(control, target).
pub open spec fn cnot_cell(control: nat, target: nat, i: nat) -> Seq<char> {
    if i == 2 * control {
        seq!['●', '─', '─']
    } else if i == 2 * target {
        seq!['⊕', '─', '─']
    } else if i % 2 == 0 {
        wire_cell()
    } else {
        connector_cell(min_nat(control, target), max_nat(control, target), i)
    }
}

/// Row `i` of the column drawn for SWAP(a, b).
pub open spec fn swap_cell(a: nat, b: nat, i: nat) -> Seq<char> {
    if i == 2 * a || i == 2 * b {
        seq!['×', '─', '─']
    } else if i % 2 == 0 {
        wire_cell()
    } else {
        connector_cell(min_nat(a, b), max_nat(a, b), i)
    }
}

pub open spec fn op_cell(op: Op, i: nat) -> Seq<char> {
    match op {
        Op::H(q) => single_cell(seq!['H'], q as nat, i),
        Op::X(q) => single_cell(seq!['X'], q as nat, i),
        Op::Y(q) => single_cell(seq!['Y'], q as nat, i),
        Op::Z(q) => single_cell(seq!['Z'], q as nat, i),
        Op::S(q) => single_cell(seq!['S'], q as nat, i),
        Op::Cnot { control, target } => cnot_cell(control as nat, target as nat, i),
        Op::Swap(a, b) => swap_cell(a as nat, b as nat, i),
    }
}

/// Row `i` of all columns, one per operation, left to right.
pub open spec fn op_cells(ops: Seq<Op>, i: nat) -> Seq<char>
    decreases ops.len(),
{
    if ops.len() == 0 {
        Seq::empty()
    } else {
        op_cells(ops.drop_last(), i) + op_cell(ops.last(), i)
    }
}

/// Width of the label column: the byte length of `"q{n-1}: ─"`.
pub open spec fn label_width(n: nat) -> nat {
    decimal((n - 1) as nat).len() + 6
}

/// The label of row `i`: `"q{i/2}: ─"` padded with `─` to the label width on
/// qubit rows, spaces on connector rows.
pub open spec fn row_label(n: nat, i: nat) -> Seq<char> {
    if i % 2 == 0 {
        let label = seq!['q'] + decimal(i / 2) + seq![':', ' ', '─'];
        let w = label_width(n);
        label + rep('─', if w > label.len() { (w - label.len()) as nat } else { 0 })
    } else {
        rep(' ', label_width(n))
    }
}

/// Row `i` of the ASCII diagram of `c`.
pub open spec fn diagram_row(c: CircuitSpec, i: nat) -> Seq<char> {
    row_label(c.num_qubits, i) + op_cells(c.ops, i)
}

/// Number of rows: qubit wires at even rows, connectors at odd rows.
pub open spec fn num_rows(n: nat) -> nat {
    (2 * n - 1) as nat
}

/// Appends `k` copies of the one-character `s`.
fn push_repeat(line: &mut String, s: &str, k: usize, Ghost(c): Ghost<char>)
    requires
        s@ == seq![c],
    ensures
        final(line)@ == old(line)@ + rep(c, k as nat),
{
    let mut j: usize = 0;
    while j < k
        invariant
            s@ == seq![c],
            j <= k,
            line@ == old(line)@ + rep(c, j as nat),
        decreases k - j,
    {
        line.append(s);
        j = j + 1;
        assert(line@ =~= old(line)@ + rep(c, j as nat));
    }
}

/// Appends to every line its cell: `cell(i)` for row `i`.
fn append_cells(lines: &mut Vec<String>, cells: &Vec<String>)
    requires
        old(lines)@.len() == cells@.len(),
    ensures
        final(lines)@.len() == old(lines)@.len(),
        forall|i: int|
            0 <= i < old(lines)@.len() ==> #[trigger] final(lines)@[i]@ == old(lines)@[i]@ + cells@[i]@,
{
    let mut out: Vec<String> = Vec::new();
    let mut i: usize = 0;
    while i < lines.len()
        invariant
            lines@ == old(lines)@,
            lines@.len() == cells@.len(),
            i <= lines@.len(),
            out@.len() == i,
            forall|k: int| 0 <= k < i ==> #[trigger] out@[k]@ == lines@[k]@ + cells@[k]@,
        decreases lines@.len() - i,
    {
        let mut s = lines[i].clone();
        s.append(cells[i].as_str());
        out.push(s);
        i = i + 1;
    }
    *lines = out;
}

fn wire_cell_exec() -> (s: String)
    ensures
        s@ == wire_cell(),
{
    let mut s = String::new();
    proof {
        reveal_strlit("───");
    }
    s.append("───");
    assert(s@ =~= wire_cell());
    s
}

fn blank_cell_exec() -> (s: String)
    ensures
        s@ == blank_cell(),
{
    let mut s = String::new();
    proof {
        reveal_strlit("   ");
    }
    s.append("   ");
    assert(s@ =~= blank_cell());
    s
}

fn connector_cell_exec(lo: usize, hi: usize, i: usize) -> (s: String)
    ensures
        s@ == connector_cell(lo as nat, hi as nat, i as nat),
{
    if i / 2 >= lo && i / 2 < hi {
        let mut s = String::new();
        proof {
            reveal_strlit("│  ");
        }
        s.append("│  ");
        s
    } else {
        blank_cell_exec()
    }
}

// Each op appends a fixed-width column to every display line.
// Qubit wires are at even indices; vertical connectors are at odd indices.

/// Appends the column of a single-qubit gate `sym` on `qubit`.
pub fn draw_single(lines: &mut Vec<String>, n: usize, qubit: usize, sym: &str)
    requires
        1 <= n,
        qubit < n,
        old(lines)@.len() == num_rows(n as nat),
    ensures
        final(lines)@.len() == old(lines)@.len(),
        forall|i: int|
            0 <= i < old(lines)@.len() ==> #[trigger] final(lines)@[i]@ == old(lines)@[i]@
                + single_cell(sym@, qubit as nat, i as nat),
{
    let mut cells: Vec<String> = Vec::new();
    let rows = lines.len();
    let mut i: usize = 0;
    while i < rows
        invariant
            rows == num_rows(n as nat),
            qubit < n,
            i <= rows,
            cells@.len() == i,
            forall|k: int|
                0 <= k < i ==> #[trigger] cells@[k]@ == single_cell(sym@, qubit as nat, k as nat),
        decreases rows - i,
    {
        let cell = if i == 2 * qubit {
            let mut c = String::new();
            c.append(sym);
            proof {
                reveal_strlit("──");
            }
            c.append("──");
            assert(c@ =~= sym@ + rep('─', 2));
            c
        } else if i % 2 == 0 {
            wire_cell_exec()
        } else {
            blank_cell_exec()
        };
        cells.push(cell);
        i = i + 1;
    }
    append_cells(lines, &cells);
}

/// Appends the column of CNOT(control, target).
pub fn draw_cnot(lines: &mut Vec<String>, n: usize, control: usize, target: usize)
    requires
        1 <= n,
        control < n,
        target < n,
        old(lines)@.len() == num_rows(n as nat),
    ensures
        final(lines)@.len() == old(lines)@.len(),
        forall|i: int|
            0 <= i < old(lines)@.len() ==> #[trigger] final(lines)@[i]@ == old(lines)@[i]@
                + cnot_cell(control as nat, target as nat, i as nat),
{
    let lo = if control <= target { control } else { target };
    let hi = if control >= target { control } else { target };
    let mut cells: Vec<String> = Vec::new();
    let rows = lines.len();
    let mut i: usize = 0;
    while i < rows
        invariant
            rows == num_rows(n as nat),
            control < n,
            target < n,
            lo == min_nat(control as nat, target as nat),
            hi == max_nat(control as nat, target as nat),
            i <= rows,
            cells@.len() == i,
            forall|k: int|
                0 <= k < i ==> #[trigger] cells@[k]@ == cnot_cell(
                    control as nat,
                    target as nat,
                    k as nat,
                ),
        decreases rows - i,
    {
        let cell = if i == 2 * control {
            let mut c = String::new();
            proof {
                reveal_strlit("●──");
            }
            c.append("●──");
            c
        } else if i == 2 * target {
            let mut c = String::new();
            proof {
                reveal_strlit("⊕──");
            }
            c.append("⊕──");
            c
        } else if i % 2 == 0 {
            wire_cell_exec()
        } else {
            connector_cell_exec(lo, hi, i)
        };
        cells.push(cell);
        i = i + 1;
    }
    append_cells(lines, &cells);
}

/// Appends the column of SWAP(a, b).
pub fn draw_swap(lines: &mut Vec<String>, n: usize, a: usize, b: usize)
    requires
        1 <= n,
        a < n,
        b < n,
        old(lines)@.len() == num_rows(n as nat),
    ensures
        final(lines)@.len() == old(lines)@.len(),
        forall|i: int|
            0 <= i < old(lines)@.len() ==> #[trigger] final(lines)@[i]@ == old(lines)@[i]@
                + swap_cell(a as nat, b as nat, i as nat),
{
    let lo = if a <= b { a } else { b };
    let hi = if a >= b { a } else { b };
    let mut cells: Vec<String> = Vec::new();
    let rows = lines.len();
    let mut i: usize = 0;
    while i < rows
        invariant
            rows == num_rows(n as nat),
            a < n,
            b < n,
            lo == min_nat(a as nat, b as nat),
            hi == max_nat(a as nat, b as nat),
            i <= rows,
            cells@.len() == i,
            forall|k: int| 0 <= k < i ==> #[trigger] cells@[k]@ == swap_cell(a as nat, b as nat, k as nat),
        decreases rows - i,
    {
        let cell = if i == 2 * a || i == 2 * b {
            let mut c = String::new();
            proof {
                reveal_strlit("×──");
            }
            c.append("×──");
            c
        } else if i % 2 == 0 {
            wire_cell_exec()
        } else {
            connector_cell_exec(lo, hi, i)
        };
        cells.push(cell);
        i = i + 1;
    }
    append_cells(lines, &cells);
}

/// Number of decimal digits of `x`.
fn num_digits(x: usize) -> (r: usize)
    ensures
        r == decimal(x as nat).len(),
        x >= 1 ==> r <= x,
        r >= 1,
    decreases x,
{
    proof {
        lemma_decimal_len(x as nat);
    }
    if x < 10 {
        1
    } else {
        num_digits(x / 10) + 1
    }
}

proof fn lemma_decimal_len(x: nat)
    ensures
        decimal(x).len() >= 1,
        x >= 1 ==> decimal(x).len() <= x,
    decreases x,
{
    if x >= 10 {
        lemma_decimal_len(x / 10);
    }
}

/// The printed line of one operation.
pub open spec fn op_line(op: Op) -> Seq<char> {
    match op {
        Op::H(q) => "  H("@ + decimal(q as nat) + ")"@,
        Op::X(q) => "  X("@ + decimal(q as nat) + ")"@,
        Op::Y(q) => "  Y("@ + decimal(q as nat) + ")"@,
        Op::Z(q) => "  Z("@ + decimal(q as nat) + ")"@,
        Op::S(q) => "  S("@ + decimal(q as nat) + ")"@,
        Op::Cnot { control, target } => "  CNOT(control="@ + decimal(control as nat) + ", target="@
            + decimal(target as nat) + ")"@,
        Op::Swap(a, b) => "  SWAP("@ + decimal(a as nat) + ", "@ + decimal(b as nat) + ")"@,
    }
}

/// The first printed line: `Circuit (n qubit(s), k ops):`.
pub open spec fn header_line(n: nat, k: nat) -> Seq<char> {
    "Circuit ("@ + decimal(n) + (if n == 1 {
        " qubit, "@
    } else {
        " qubits, "@
    }) + decimal(k) + " ops):"@
}

fn with_number(prefix: &str, x: usize, suffix: &str) -> (s: String)
    ensures
        s@ == prefix@ + decimal(x as nat) + suffix@,
{
    let mut s = String::new();
    s.append(prefix);
    let d = decimal_string(x);
    s.append(d.as_str());
    s.append(suffix);
    s
}

fn op_line_exec(op: Op) -> (s: String)
    ensures
        s@ == op_line(op),
{
    match op {
        Op::H(q) => with_number("  H(", q, ")"),
        Op::X(q) => with_number("  X(", q, ")"),
        Op::Y(q) => with_number("  Y(", q, ")"),
        Op::Z(q) => with_number("  Z(", q, ")"),
        Op::S(q) => with_number("  S(", q, ")"),
        Op::Cnot { control, target } => {
            let mut s = with_number("  CNOT(control=", control, ", target=");
            let t = with_number("", target, ")");
            s.append(t.as_str());
            proof {
                reveal_strlit("");
            }
            assert(s@ =~= op_line(op));
            s
        },
        Op::Swap(a, b) => {
            let mut s = with_number("  SWAP(", a, ", ");
            let t = with_number("", b, ")");
            s.append(t.as_str());
            proof {
                reveal_strlit("");
            }
            assert(s@ =~= op_line(op));
            s
        },
    }
}

impl Circuit {
    /// The circuit as a list of operations: a header line, then one line per operation.
    pub fn describe(&self) -> (lines: Vec<String>)
        ensures
            lines@.len() == self@.ops.len() + 1,
            lines@[0]@ == header_line(self@.num_qubits, self@.ops.len()),
            forall|k: int| 0 <= k < self@.ops.len() ==> #[trigger] lines@[k + 1]@ == op_line(self@.ops[k]),
    {
        let n = self.qubits();
        let len = self.len();
        let mut header = with_number("Circuit (", n, if n == 1 {
            " qubit, "
        } else {
            " qubits, "
        });
        let rest = with_number("", len, " ops):");
        header.append(rest.as_str());
        proof {
            reveal_strlit("");
        }
        assert(header@ =~= header_line(self@.num_qubits, self@.ops.len()));
        let mut lines: Vec<String> = Vec::new();
        lines.push(header);
        let mut k: usize = 0;
        while k < len
            invariant
                len == self@.ops.len(),
                k <= len,
                lines@.len() == k + 1,
                lines@[0]@ == header_line(self@.num_qubits, self@.ops.len()),
                forall|j: int| 0 <= j < k ==> #[trigger] lines@[j + 1]@ == op_line(self@.ops[j]),
            decreases len - k,
        {
            let line = op_line_exec(self.op(k));
            lines.push(line);
            k = k + 1;
        }
        lines
    }

    /// The circuit as an ASCII diagram, one string per row.
    /// Qubit wires run left to right. Vertical bars connect multi-qubit gates.
    pub fn diagram_lines(&self) -> (lines: Vec<String>)
        requires
            self.wf(),
            1 <= self@.num_qubits,
            2 * self@.num_qubits <= usize::MAX,
        ensures
            lines@.len() == num_rows(self@.num_qubits),
            forall|i: int|
                0 <= i < lines@.len() ==> #[trigger] lines@[i]@ == diagram_row(self@, i as nat),
    {
        let n = self.qubits();
        let dmax = num_digits(n - 1);
        let width = dmax + 6;
        let rows = 2 * n - 1;
        let mut lines: Vec<String> = Vec::new();
        let mut i: usize = 0;
        proof {
            reveal_strlit("q");
            reveal_strlit(": ─");
            reveal_strlit("─");
            reveal_strlit(" ");
        }
        while i < rows
            invariant
                rows == num_rows(n as nat),
                n == self@.num_qubits,
                1 <= n,
                width == label_width(n as nat),
                i <= rows,
                lines@.len() == i,
                forall|k: int| 0 <= k < i ==> #[trigger] lines@[k]@ == row_label(n as nat, k as nat),
            decreases rows - i,
        {
            let mut s = String::new();
            if i % 2 == 0 {
                s.append("q");
                let d = decimal_string(i / 2);
                s.append(d.as_str());
                s.append(": ─");
                let lab = 1 + num_digits(i / 2) + 3;
                let pad = if width > lab {
                    width - lab
                } else {
                    0
                };
                proof {
                    reveal_strlit("q");
                    reveal_strlit(": ─");
                    reveal_strlit("─");
                }
                assert("─"@ =~= seq!['─']);
                push_repeat(&mut s, "─", pad, Ghost('─'));
                assert(s@ =~= row_label(n as nat, i as nat));
            } else {
                proof {
                    reveal_strlit(" ");
                }
                assert(" "@ =~= seq![' ']);
                push_repeat(&mut s, " ", width, Ghost(' '));
                assert(s@ =~= row_label(n as nat, i as nat));
            }
            lines.push(s);
            i = i + 1;
        }
        let len = self.len();
        let ghost ops = self@.ops;
        let mut k: usize = 0;
        proof {
            assert forall|j: int| 0 <= j < lines@.len() implies #[trigger] lines@[j]@ == row_label(
                n as nat,
                j as nat,
            ) + op_cells(ops.take(0), j as nat) by {
                assert(ops.take(0).len() == 0);
                assert(lines@[j]@ =~= row_label(n as nat, j as nat) + Seq::<char>::empty());
            }
        }
        while k < len
            invariant
                self.wf(),
                ops == self@.ops,
                len == ops.len(),
                n == self@.num_qubits,
                1 <= n,
                k <= len,
                lines@.len() == num_rows(n as nat),
                forall|j: int|
                    0 <= j < lines@.len() ==> #[trigger] lines@[j]@ == row_label(n as nat, j as nat)
                        + op_cells(ops.take(k as int), j as nat),
            decreases len - k,
        {
            let ghost before = lines@;
            let op = self.op(k);
            assert(crate::circuit::op_valid(ops[k as int], n as nat));
            proof {
                reveal_strlit("H");
                reveal_strlit("X");
                reveal_strlit("Y");
                reveal_strlit("Z");
                reveal_strlit("S");
            }
            match op {
                Op::H(q) => draw_single(&mut lines, n, q, "H"),
                Op::X(q) => draw_single(&mut lines, n, q, "X"),
                Op::Y(q) => draw_single(&mut lines, n, q, "Y"),
                Op::Z(q) => draw_single(&mut lines, n, q, "Z"),
                Op::S(q) => draw_single(&mut lines, n, q, "S"),
                Op::Cnot { control, target } => draw_cnot(&mut lines, n, control, target),
                Op::Swap(a, b) => draw_swap(&mut lines, n, a, b),
            }
            proof {
                assert(ops.take(k + 1).drop_last() =~= ops.take(k as int));
                assert forall|j: int| 0 <= j < lines@.len() implies #[trigger] lines@[j]@ == row_label(
                    n as nat,
                    j as nat,
                ) + op_cells(ops.take(k + 1), j as nat) by {
                    assert(lines@[j]@ == before[j]@ + op_cell(op, j as nat));
                    assert(op_cells(ops.take(k + 1), j as nat) == op_cells(ops.take(k as int), j as nat)
                        + op_cell(op, j as nat));
                    assert(lines@[j]@ =~= row_label(n as nat, j as nat) + op_cells(
                        ops.take(k + 1),
                        j as nat,
                    ));
                }
            }
            k = k + 1;
        }
        proof {
            assert(ops.take(len as int) =~= ops);
        }
        lines
    }
}

} // verus!
