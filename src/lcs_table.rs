use vstd::prelude::*;

verus! {

/// Which move of the table walk reaches the longest common subsequence
/// from a cell.
#[derive(Debug, Clone, Copy, PartialEq, Eq, Structural)]
pub enum Step {
    /// Both tokens are equal and belong to the common subsequence.
    Both,
    /// Skipping the token of the first sequence is strictly better.
    OnlyX,
    /// Skipping the token of the second sequence is strictly better.
    OnlyY,
    /// Skipping either token is equally good.
    XorY,
}

/// One cell of the table: the length of the longest common subsequence of
/// the two suffixes that start at the cell, and the move that reaches it.
#[derive(Debug, Clone, Copy)]
pub struct LcsEntry {
    pub step: Step,
    pub len: usize,
}

/// The entry read at any coordinate outside the table.
pub open spec fn boundary_entry() -> LcsEntry {
    LcsEntry { step: Step::XorY, len: 0 }
}

/// The entry read at any coordinate outside the table: no common tokens
/// remain, and either move is as good as the other.
pub fn lcs_entry_at_boundary() -> (e: LcsEntry)
    ensures
        e == boundary_entry(),
{
    LcsEntry { step: Step::XorY, len: 0 }
}

/// The view of a token sequence: the characters of each token.
pub open spec fn tokens(s: Seq<&str>) -> Seq<Seq<char>> {
    s.map_values(|t: &str| t@)
}

/// Appending a token appends its characters to the view.
pub proof fn lemma_tokens_push(s: Seq<&str>, t: &str)
    ensures
        tokens(s.push(t)) == tokens(s).push(t@),
{
    assert(tokens(s.push(t)) =~= tokens(s).push(t@));
}

/// Whether `(i, j)` is a cell of the table over `x` and `y`.
pub open spec fn in_grid(x: Seq<Seq<char>>, y: Seq<Seq<char>>, i: int, j: int) -> bool {
    0 <= i < x.len() && 0 <= j < y.len()
}

/// Length of the longest common subsequence of `x[i..]` and `y[j..]`
/// (zero outside the grid).
pub open spec fn lcs_len(x: Seq<Seq<char>>, y: Seq<Seq<char>>, i: int, j: int) -> nat
    decreases x.len() - i + y.len() - j,
{
    if !in_grid(x, y, i, j) {
        0
    } else if x[i] == y[j] {
        1 + lcs_len(x, y, i + 1, j + 1)
    } else {
        let len_x = lcs_len(x, y, i + 1, j);
        let len_y = lcs_len(x, y, i, j + 1);
        if len_x >= len_y {
            len_x
        } else {
            len_y
        }
    }
}

/// The move recorded at `(i, j)`; `XorY` outside the grid.
pub open spec fn step_at(x: Seq<Seq<char>>, y: Seq<Seq<char>>, i: int, j: int) -> Step {
    if !in_grid(x, y, i, j) {
        Step::XorY
    } else if x[i] == y[j] {
        Step::Both
    } else {
        let len_x = lcs_len(x, y, i + 1, j);
        let len_y = lcs_len(x, y, i, j + 1);
        if len_x == len_y {
            Step::XorY
        } else if len_x > len_y {
            Step::OnlyX
        } else {
            Step::OnlyY
        }
    }
}

/// `e` is the entry that belongs at `(i, j)`.
pub open spec fn entry_is(e: LcsEntry, x: Seq<Seq<char>>, y: Seq<Seq<char>>, i: int, j: int) -> bool {
    e.len as nat == lcs_len(x, y, i, j) && e.step == step_at(x, y, i, j)
}

/// The longest common subsequence of two suffixes is no longer than either.
pub proof fn lemma_lcs_len_bounded(x: Seq<Seq<char>>, y: Seq<Seq<char>>, i: int, j: int)
    requires
        0 <= i <= x.len(),
        0 <= j <= y.len(),
    ensures
        lcs_len(x, y, i, j) <= x.len() - i,
        lcs_len(x, y, i, j) <= y.len() - j,
    decreases x.len() - i + y.len() - j,
{
    if in_grid(x, y, i, j) {
        lemma_lcs_len_bounded(x, y, i + 1, j + 1);
        lemma_lcs_len_bounded(x, y, i + 1, j);
        lemma_lcs_len_bounded(x, y, i, j + 1);
    }
}

/// The move the walk makes from cursor `(i, j)`: once one sequence is used
/// up it takes the other's tokens; inside the grid it follows the recorded
/// step, and on a tie it takes the token of `y`.
pub open spec fn walk_step(x: Seq<Seq<char>>, y: Seq<Seq<char>>, i: int, j: int) -> Step {
    if i >= x.len() {
        Step::OnlyY
    } else if j >= y.len() {
        Step::OnlyX
    } else {
        match step_at(x, y, i, j) {
            Step::Both => Step::Both,
            Step::OnlyX => Step::OnlyX,
            _ => Step::OnlyY,
        }
    }
}

/// The token emitted by the move from `(i, j)`.
pub open spec fn walk_token(x: Seq<Seq<char>>, y: Seq<Seq<char>>, i: int, j: int) -> Seq<char> {
    if walk_step(x, y, i, j) == Step::OnlyY {
        y[j]
    } else {
        x[i]
    }
}

/// The cursor after the move from `(i, j)`.
pub open spec fn walk_next(x: Seq<Seq<char>>, y: Seq<Seq<char>>, i: int, j: int) -> (int, int) {
    match walk_step(x, y, i, j) {
        Step::Both => (i + 1, j + 1),
        Step::OnlyX => (i + 1, j),
        _ => (i, j + 1),
    }
}

/// The alignment that the walk produces from `(i, j)` to `(x.len(), y.len())`:
/// each item is a move and its token.
pub open spec fn walk(x: Seq<Seq<char>>, y: Seq<Seq<char>>, i: int, j: int) -> Seq<(Step, Seq<char>)>
    decreases x.len() - i + y.len() - j,
{
    if !(0 <= i <= x.len() && 0 <= j <= y.len()) || (i == x.len() && j == y.len()) {
        Seq::empty()
    } else {
        let next = walk_next(x, y, i, j);
        seq![(walk_step(x, y, i, j), walk_token(x, y, i, j))] + walk(x, y, next.0, next.1)
    }
}

/// Relies on `str`'s `==`: two string slices are equal when their characters are.
#[verifier::external_body]
pub(crate) fn same_token(s: &str, t: &str) -> (r: bool)
    ensures
        r == (s@ == t@),
{
    s == t
}

impl LcsEntry {
    /// Overwrites both fields.
    pub fn set(&mut self, step: Step, len: usize)
        ensures
            final(self).step == step,
            final(self).len == len,
    {
        self.step = step;
        self.len = len;
    }
}

/// The dynamic-programming table over two token sequences `a` and `b`:
/// `table[i][j]` describes the suffixes `a[i..]` and `b[j..]`.
pub struct LcsTable<'a> {
    table: Vec<Vec<LcsEntry>>,
    a: &'a [&'a str],
    b: &'a [&'a str],
}

impl<'a> LcsTable<'a> {
    /// The tokens of the first sequence.
    pub closed spec fn spec_x(&self) -> Seq<Seq<char>> {
        tokens(self.a@)
    }

    /// The tokens of the second sequence.
    pub closed spec fn spec_y(&self) -> Seq<Seq<char>> {
        tokens(self.b@)
    }

    /// The stored entry at `(i, j)`, or the boundary entry outside the grid.
    pub closed spec fn spec_entry(&self, i: int, j: int) -> LcsEntry {
        if in_grid(self.spec_x(), self.spec_y(), i, j) {
            self.table@[i]@[j]
        } else {
            boundary_entry()
        }
    }

    /// The table has one row per token of `a` and one column per token of `b`.
    pub closed spec fn shaped(&self) -> bool {
        &&& self.table@.len() == self.a@.len()
        &&& forall|i: int| 0 <= i < self.table@.len() ==> (#[trigger] self.table@[i])@.len() == self.b@.len()
    }

    /// Every cell holds the longest common subsequence length of its suffixes
    /// and the move that reaches it.
    pub open spec fn wf(&self) -> bool {
        &&& self.shaped()
        &&& forall|i: int, j: int|
            entry_is(#[trigger] self.spec_entry(i, j), self.spec_x(), self.spec_y(), i, j)
    }

    /// A table over `a` and `b` whose every cell holds the boundary entry.
    pub fn _new(a: &'a [&'a str], b: &'a [&'a str]) -> (r: LcsTable<'a>)
        ensures
            r.shaped(),
            r.spec_x() == tokens(a@),
            r.spec_y() == tokens(b@),
            forall|i: int, j: int| #[trigger] r.spec_entry(i, j) == boundary_entry(),
    {
        let mut table: Vec<Vec<LcsEntry>> = Vec::new();
        let mut i: usize = 0;
        while i < a.len()
            invariant
                i <= a@.len(),
                table@.len() == i,
                forall|k: int| 0 <= k < i ==> (#[trigger] table@[k])@.len() == b@.len(),
                forall|k: int, l: int|
                    0 <= k < i && 0 <= l < b@.len() ==> #[trigger] table@[k]@[l] == boundary_entry(),
            decreases a@.len() - i,
        {
            let row = vec![lcs_entry_at_boundary(); b.len()];
            table.push(row);
            i = i + 1;
        }
        LcsTable { table, a, b }
    }

    /// The entry at `(x, y)`; the boundary entry outside the grid.
    pub fn entry(&self, x: usize, y: usize) -> (e: LcsEntry)
        requires
            self.shaped(),
        ensures
            e == self.spec_entry(x as int, y as int),
    {
        if x >= self.a.len() || y >= self.b.len() {
            lcs_entry_at_boundary()
        } else {
            self.table[x][y]
        }
    }

    /// Builds the table over `a` and `b`, filling rows from the last token of
    /// `a` to the first and each row from the last token of `b` to the first,
    /// so that every cell is computed after the cells it reads.
    pub fn from(a: &'a [&'a str], b: &'a [&'a str]) -> (r: LcsTable<'a>)
        ensures
            r.wf(),
            r.spec_x() == tokens(a@),
            r.spec_y() == tokens(b@),
    {
        let mut lcs = LcsTable::_new(a, b);
        let ghost x = tokens(a@);
        let ghost y = tokens(b@);
        let n = a.len();
        let m = b.len();
        let mut i: usize = n;
        while i > 0
            invariant
                lcs.shaped(),
                lcs.spec_x() == x,
                lcs.spec_y() == y,
                x == tokens(a@),
                y == tokens(b@),
                x.len() == n,
                y.len() == m,
                a@.len() == n,
                b@.len() == m,
                i <= n,
                forall|k: int, l: int| i <= k ==> entry_is(#[trigger] lcs.spec_entry(k, l), x, y, k, l),
                forall|k: int, l: int| !in_grid(x, y, k, l) ==> #[trigger] lcs.spec_entry(k, l) == boundary_entry(),
            decreases i,
        {
            i = i - 1;
            let mut row: Vec<LcsEntry> = vec![lcs_entry_at_boundary(); m];
            let mut j: usize = m;
            while j > 0
                invariant
                    lcs.shaped(),
                    lcs.spec_x() == x,
                    lcs.spec_y() == y,
                    x == tokens(a@),
                    y == tokens(b@),
                    x.len() == n,
                    y.len() == m,
                    a@.len() == n,
                    b@.len() == m,
                    i < n,
                    j <= m,
                    row@.len() == m,
                    forall|k: int, l: int| i < k ==> entry_is(#[trigger] lcs.spec_entry(k, l), x, y, k, l),
                    forall|k: int, l: int| !in_grid(x, y, k, l) ==> #[trigger] lcs.spec_entry(k, l) == boundary_entry(),
                    forall|l: int| j <= l < m ==> entry_is(#[trigger] row@[l], x, y, i as int, l),
                decreases j,
            {
                j = j - 1;
                proof {
                    lemma_lcs_len_bounded(x, y, i + 1, j + 1);
                }
                let (step, len) = if same_token(a[i], b[j]) {
                    let prev_len = lcs.entry(i + 1, j + 1).len;
                    (Step::Both, prev_len + 1)
                } else {
                    let len_x = lcs.entry(i + 1, j).len;
                    let len_y = if j + 1 < m {
                        row[j + 1].len
                    } else {
                        lcs_entry_at_boundary().len
                    };
                    if len_x == len_y {
                        (Step::XorY, len_x)
                    } else if len_x > len_y {
                        (Step::OnlyX, len_x)
                    } else {
                        (Step::OnlyY, len_y)
                    }
                };
                let mut e = row[j];
                e.set(step, len);
                assert(x[i as int] == a@[i as int]@);
                assert(y[j as int] == b@[j as int]@);
                assert(entry_is(e, x, y, i as int, j as int));
                row[j] = e;
            }
            let ghost prev = lcs;
            let ghost new_row = row;
            lcs.table[i] = row;
            assert(lcs.table@ == prev.table@.update(i as int, new_row));
            assert forall|k: int, l: int| i <= k implies entry_is(#[trigger] lcs.spec_entry(k, l), x, y, k, l) by {
                if k == i && 0 <= l < m {
                    assert(lcs.spec_entry(k, l) == new_row@[l]);
                } else if k > i {
                    assert(lcs.spec_entry(k, l) == prev.spec_entry(k, l));
                }
            }
        }
        lcs
    }
}

/// A single pass over the alignment recorded in a table, from `(0, 0)` to
/// the end of both sequences.
pub struct LcsIter<'a> {
    lcs: &'a LcsTable<'a>,
    x: usize,
    y: usize,
    size_x: usize,
    size_y: usize,
}

impl<'a> LcsTable<'a> {
    /// The walk over this table from its origin.
    pub fn iter(&'a self) -> (r: LcsIter<'a>)
        requires
            self.wf(),
        ensures
            r.wf(),
            r.remaining() == walk(self.spec_x(), self.spec_y(), 0, 0),
    {
        let (size_x, size_y) = (self.a.len(), self.b.len());
        LcsIter { lcs: self, x: 0, y: 0, size_x, size_y }
    }
}

impl<'a> LcsIter<'a> {
    /// The cursor lies within the bounds of a well-formed table.
    pub closed spec fn wf(&self) -> bool {
        &&& self.lcs.wf()
        &&& self.size_x == self.lcs.a@.len()
        &&& self.size_y == self.lcs.b@.len()
        &&& self.x <= self.size_x
        &&& self.y <= self.size_y
    }

    /// The items that are still to come.
    pub closed spec fn remaining(&self) -> Seq<(Step, Seq<char>)> {
        walk(self.lcs.spec_x(), self.lcs.spec_y(), self.x as int, self.y as int)
    }

    /// Takes the next move of the walk, or `None` once both sequences are used up.
    pub fn next(&mut self) -> (r: Option<(Step, &'a str)>)
        requires
            old(self).wf(),
        ensures
            final(self).wf(),
            old(self).remaining().len() == 0 ==> r is None,
            r is None ==> old(self).remaining().len() == 0 && final(self).remaining() == old(self).remaining(),
            r is Some ==> old(self).remaining() == seq![(r->Some_0.0, r->Some_0.1@)] + final(self).remaining(),
    {
        let ghost x = self.lcs.spec_x();
        let ghost y = self.lcs.spec_y();
        if self.x == self.size_x || self.y == self.size_y {
            let result = if self.x < self.size_x {
                let t = self.lcs.a[self.x];
                self.x = self.x + 1;
                Some((Step::OnlyX, t))
            } else if self.y < self.size_y {
                let t = self.lcs.b[self.y];
                self.y = self.y + 1;
                Some((Step::OnlyY, t))
            } else {
                None
            };
            return result;
        }
        let step = self.lcs.entry(self.x, self.y).step;
        let item = match step {
            Step::Both => {
                let t = self.lcs.a[self.x];
                self.x = self.x + 1;
                self.y = self.y + 1;
                (Step::Both, t)
            },
            Step::OnlyX => {
                let t = self.lcs.a[self.x];
                self.x = self.x + 1;
                (Step::OnlyX, t)
            },
            Step::OnlyY => {
                let t = self.lcs.b[self.y];
                self.y = self.y + 1;
                (Step::OnlyY, t)
            },
            Step::XorY => {
                let t = self.lcs.b[self.y];
                self.y = self.y + 1;
                (Step::OnlyY, t)
            },
        };
        Some(item)
    }
}

/// Number of characters of a token shown in a header cell.
pub const TRUNCATE_LENGTH: usize = 5;

/// The first `TRUNCATE_LENGTH` characters of `t`.
pub open spec fn truncated(t: Seq<char>) -> Seq<char> {
    if t.len() <= TRUNCATE_LENGTH {
        t
    } else {
        t.subrange(0, TRUNCATE_LENGTH as int)
    }
}

/// The decimal digit for `d < 10`.
pub open spec fn digit_char(d: nat) -> char {
    if d == 0 {
        '0'
    } else if d == 1 {
        '1'
    } else if d == 2 {
        '2'
    } else if d == 3 {
        '3'
    } else if d == 4 {
        '4'
    } else if d == 5 {
        '5'
    } else if d == 6 {
        '6'
    } else if d == 7 {
        '7'
    } else if d == 8 {
        '8'
    } else {
        '9'
    }
}

/// `n` written in decimal.
pub open spec fn decimal(n: nat) -> Seq<char>
    decreases n,
{
    if n < 10 {
        seq![digit_char(n)]
    } else {
        decimal(n / 10).push(digit_char(n % 10))
    }
}

/// The arrow that draws a step.
pub open spec fn arrow(s: Step) -> Seq<char> {
    match s {
        Step::Both => seq!['\u{2198}'],
        Step::OnlyY => seq!['\u{2193}'],
        Step::OnlyX => seq!['\u{2192}'],
        Step::XorY => seq!['\u{2193}', ' ', 'o', 'r', ' ', '\u{2192}'],
    }
}

/// The text of a cell: the length, a space and the arrow.
pub open spec fn cell_text(e: LcsEntry) -> Seq<char> {
    decimal(e.len as nat) + seq![' '] + arrow(e.step)
}

/// What prettytable draws for rows of cell texts.
pub uninterp spec fn table_text(rows: Seq<Seq<Seq<char>>>) -> Seq<char>;

/// The characters of each cell of a row.
pub open spec fn texts(row: Seq<String>) -> Seq<Seq<char>> {
    row.map_values(|c: String| c@)
}

proof fn lemma_texts_push(row: Seq<String>, c: String)
    ensures
        texts(row.push(c)) == texts(row).push(c@),
{
    assert(texts(row.push(c)) =~= texts(row).push(c@));
}

proof fn lemma_rows_view_push(rows: Seq<Vec<String>>, row: Vec<String>)
    ensures
        rows_view(rows.push(row)) == rows_view(rows).push(texts(row@)),
{
    assert(rows_view(rows.push(row)) =~= rows_view(rows).push(texts(row@)));
}

/// The characters of each cell of each row.
pub open spec fn rows_view(rows: Seq<Vec<String>>) -> Seq<Seq<Seq<char>>> {
    rows.map_values(|row: Vec<String>| texts(row@))
}

/// Relies on prettytable: `Table::init` over `Row::new` of `Cell::new` for
/// each text, drawn by `Table`'s `Display` in its default format; the drawing
/// depends on the texts alone.
#[verifier::external_body]
fn draw_table(rows: &Vec<Vec<String>>) -> (r: String)
    ensures
        r@ == table_text(rows_view(rows@)),
{
    let rows = rows.iter().map(
        |row| prettytable::Row::new(row.iter().map(|c| prettytable::Cell::new(c)).collect()),
    ).collect();
    prettytable::Table::init(rows).to_string()
}

fn digit_text(d: usize) -> (r: &'static str)
    requires
        d < 10,
    ensures
        r@ == seq![digit_char(d as nat)],
{
    proof {
        reveal_strlit("0");
        reveal_strlit("1");
        reveal_strlit("2");
        reveal_strlit("3");
        reveal_strlit("4");
        reveal_strlit("5");
        reveal_strlit("6");
        reveal_strlit("7");
        reveal_strlit("8");
        reveal_strlit("9");
    }
    if d == 0 {
        "0"
    } else if d == 1 {
        "1"
    } else if d == 2 {
        "2"
    } else if d == 3 {
        "3"
    } else if d == 4 {
        "4"
    } else if d == 5 {
        "5"
    } else if d == 6 {
        "6"
    } else if d == 7 {
        "7"
    } else if d == 8 {
        "8"
    } else {
        "9"
    }
}

/// Appends `n` in decimal to `out`.
fn push_decimal(out: &mut String, n: usize)
    ensures
        final(out)@ == old(out)@ + decimal(n as nat),
    decreases n,
{
    if n >= 10 {
        push_decimal(out, n / 10);
    }
    out.append(digit_text(n % 10));
    assert(final(out)@ =~= old(out)@ + decimal(n as nat));
}

/// The text of a cell for `e`.
pub fn entry_text(e: LcsEntry) -> (r: String)
    ensures
        r@ == cell_text(e),
{
    let mut out = String::new();
    push_decimal(&mut out, e.len);
    out.append(" ");
    let arrow_text = match e.step {
        Step::Both => "\u{2198}",
        Step::OnlyY => "\u{2193}",
        Step::OnlyX => "\u{2192}",
        Step::XorY => "\u{2193} or \u{2192}",
    };
    proof {
        reveal_strlit(" ");
        reveal_strlit("\u{2198}");
        reveal_strlit("\u{2193}");
        reveal_strlit("\u{2192}");
        reveal_strlit("\u{2193} or \u{2192}");
    }
    out.append(arrow_text);
    assert(out@ =~= cell_text(e));
    out
}

/// The first `TRUNCATE_LENGTH` characters of `t`.
pub fn truncate(t: &str) -> (r: String)
    ensures
        r@ == truncated(t@),
{
    let n = t.unicode_len();
    let k = if n <= TRUNCATE_LENGTH {
        n
    } else {
        TRUNCATE_LENGTH
    };
    let r = String::from_str(t.substring_char(0, k));
    assert(r@ =~= truncated(t@));
    r
}

impl<'a> LcsTable<'a> {
    /// The header row of the drawing: an empty corner and the tokens of `a`.
    pub closed spec fn header_row(&self) -> Seq<Seq<char>> {
        seq![Seq::<char>::empty()] + self.spec_x().map_values(|t: Seq<char>| truncated(t))
    }

    /// The row of the drawing for token `j` of `b`: that token and the
    /// entries of its column.
    pub closed spec fn body_row(&self, j: int) -> Seq<Seq<char>> {
        seq![truncated(self.spec_y()[j])] + Seq::new(
            self.spec_x().len(),
            |i: int| cell_text(self.spec_entry(i, j)),
        )
    }

    /// The cell texts of the drawing, row by row.
    pub closed spec fn grid_rows(&self) -> Seq<Seq<Seq<char>>> {
        seq![self.header_row()] + Seq::new(self.spec_y().len(), |j: int| self.body_row(j))
    }

    /// The table drawn as a grid: columns for the tokens of `a`, rows for
    /// those of `b`, and each cell showing its length and step.
    pub fn render(&self) -> (r: String)
        requires
            self.shaped(),
        ensures
            r@ == table_text(self.grid_rows()),
    {
        let ghost x = self.spec_x();
        let ghost y = self.spec_y();
        let mut rows: Vec<Vec<String>> = Vec::new();
        let mut header: Vec<String> = Vec::new();
        header.push(String::new());
        let mut i: usize = 0;
        while i < self.a.len()
            invariant
                x == self.spec_x(),
                i <= self.a@.len(),
                texts(header@) =~= seq![Seq::<char>::empty()] + x.subrange(0, i as int).map_values(
                    |t: Seq<char>| truncated(t),
                ),
            decreases self.a@.len() - i,
        {
            let cell = truncate(self.a[i]);
            proof {
                assert(x[i as int] == self.a@[i as int]@);
            }
            proof {
                lemma_texts_push(header@, cell);
                assert(seq![Seq::<char>::empty()] + x.subrange(0, i + 1).map_values(|t: Seq<char>| truncated(t))
                    =~= (seq![Seq::<char>::empty()] + x.subrange(0, i as int).map_values(
                    |t: Seq<char>| truncated(t),
                )).push(truncated(x[i as int])));
            }
            header.push(cell);
            i = i + 1;
        }
        assert(x.subrange(0, i as int) =~= x);
        proof {
            lemma_rows_view_push(rows@, header);
        }
        rows.push(header);
        let mut j: usize = 0;
        while j < self.b.len()
            invariant
                self.shaped(),
                x == self.spec_x(),
                y == self.spec_y(),
                j <= self.b@.len(),
                rows_view(rows@) =~= seq![self.header_row()] + Seq::new(j as nat, |k: int| self.body_row(k)),
            decreases self.b@.len() - j,
        {
            let mut row: Vec<String> = Vec::new();
            let first = truncate(self.b[j]);
            proof {
                assert(y[j as int] == self.b@[j as int]@);
            }
            row.push(first);
            let mut i: usize = 0;
            while i < self.a.len()
                invariant
                    self.shaped(),
                    x == self.spec_x(),
                    y == self.spec_y(),
                    j < self.b@.len(),
                    i <= self.a@.len(),
                    texts(row@) =~= seq![truncated(y[j as int])] + Seq::new(
                        i as nat,
                        |k: int| cell_text(self.spec_entry(k, j as int)),
                    ),
                decreases self.a@.len() - i,
            {
                let cell = entry_text(self.entry(i, j));
                proof {
                    lemma_texts_push(row@, cell);
                    assert(seq![truncated(y[j as int])] + Seq::new(
                        (i + 1) as nat,
                        |k: int| cell_text(self.spec_entry(k, j as int)),
                    ) =~= (seq![truncated(y[j as int])] + Seq::new(
                        i as nat,
                        |k: int| cell_text(self.spec_entry(k, j as int)),
                    )).push(cell_text(self.spec_entry(i as int, j as int))));
                }
                row.push(cell);
                i = i + 1;
            }
            assert(texts(row@) =~= self.body_row(j as int));
            proof {
                lemma_rows_view_push(rows@, row);
                assert(seq![self.header_row()] + Seq::new((j + 1) as nat, |k: int| self.body_row(k)) =~= (seq![
                    self.header_row(),
                ] + Seq::new(j as nat, |k: int| self.body_row(k))).push(self.body_row(j as int)));
            }
            rows.push(row);
            j = j + 1;
        }
        assert(rows_view(rows@) =~= self.grid_rows());
        draw_table(&rows)
    }
}

} // verus!
