//! Markdown decision tables: reading the layout and evaluating every row.
use crate::context::{lookup, operand_of, var_to_operand};
use crate::executor::{eval_postfix, interpret};
use crate::operand::{Operand, OperandModel, Operator, Scalar, ScalarModel};
use crate::text::{chars_of, piece, split_on, split_ranges, trim, trim_range};
use crate::tokenizer::{lex, postfix_of, LexError, LexErrorModel, ParenError, Tokenizer};
use crate::value::{JsonModel, JsonValue};
use vstd::prelude::*;
use vstd::string::StrSliceExecFns;

verus! {

/// The declared columns: `(name, declared type)` for inputs and for outputs,
/// in table order.
pub struct Definition {
    pub inputs: Vec<(String, String)>,
    pub outputs: Vec<(String, String)>,
}

/// The cells of one data row, inputs first, then outputs.
pub struct Row {
    pub cells: Vec<String>,
}

pub struct Table {
    pub rows: Vec<Row>,
    pub defs: Definition,
}

/// Why a text is not a decision table.
#[derive(Debug, Clone, Copy, PartialEq, Eq, Structural)]
pub enum TableFormatError {
    /// A line has fewer than one input and one output cell.
    InsufficientColumns,
    /// There is no line after the four definition lines.
    NoDataRows,
    /// No column is marked as input, or none as output.
    MissingInputOrOutput,
    /// A data row does not have one cell per declared column.
    RowWidth,
}

pub type Pairs = Seq<(Seq<char>, Seq<char>)>;

pub struct TableModel {
    pub inputs: Pairs,
    pub outputs: Pairs,
    pub rows: Seq<Seq<Seq<char>>>,
}

pub open spec fn strings(v: Seq<String>) -> Seq<Seq<char>> {
    v.map_values(|s: String| s@)
}

pub open spec fn pairs(v: Seq<(String, String)>) -> Pairs {
    v.map_values(|p: (String, String)| (p.0@, p.1@))
}

impl Row {
    pub open spec fn model(self) -> Seq<Seq<char>> {
        strings(self.cells@)
    }
}

pub open spec fn row_models(v: Seq<Row>) -> Seq<Seq<Seq<char>>> {
    v.map_values(|r: Row| r.model())
}

impl Table {
    pub open spec fn model(self) -> TableModel {
        TableModel {
            inputs: pairs(self.defs.inputs@),
            outputs: pairs(self.defs.outputs@),
            rows: row_models(self.rows@),
        }
    }

    /// Every row has one cell per declared column.
    pub open spec fn wf(self) -> bool {
        forall|r: int|
            0 <= r < self.rows@.len() ==> #[trigger] self.rows@[r].cells@.len()
                == self.defs.inputs@.len() + self.defs.outputs@.len()
    }
}

// ---------------------------------------------------------------------------
// The layout
/// The trimmed cells of a line, without the pieces before the first and after
/// the last `|`.
pub open spec fn row_cells(line: Seq<char>) -> Seq<Seq<char>> {
    let parts = split_on(line, '|');
    Seq::new((parts.len() - 2) as nat, |k: int| trim(parts[k + 1]))
}

/// The rows of the non-blank lines, each trimmed; an error for a line with
/// fewer than two cells.
pub open spec fn rows_from(lines: Seq<Seq<char>>) -> Result<Seq<Seq<Seq<char>>>, TableFormatError>
    decreases lines.len(),
{
    if lines.len() == 0 {
        Ok(Seq::empty())
    } else {
        match rows_from(lines.drop_last()) {
            Ok(acc) => {
                let t = trim(lines.last());
                if t.len() == 0 {
                    Ok(acc)
                } else if split_on(t, '|').len() < 4 {
                    Err(TableFormatError::InsufficientColumns)
                } else {
                    Ok(acc.push(row_cells(t)))
                }
            },
            Err(e) => Err(e),
        }
    }
}

/// A column marker for an input: starts and ends with `-`.
pub open spec fn is_input_marker(m: Seq<char>) -> bool {
    m.len() > 0 && m[0] == '-' && m.last() == '-'
}

/// A column marker for an output: ends with `-:`.
pub open spec fn is_output_marker(m: Seq<char>) -> bool {
    m.len() >= 2 && m[m.len() - 2] == '-' && m.last() == ':'
}

pub open spec fn column_kind(m: Seq<char>, inputs: bool) -> bool {
    if inputs {
        is_input_marker(m)
    } else {
        !is_input_marker(m) && is_output_marker(m)
    }
}

/// Cell `c` of a definition line; empty where the line is shorter than the
/// header.
pub open spec fn cell_at(row: Seq<Seq<char>>, c: int) -> Seq<char> {
    if 0 <= c < row.len() {
        row[c]
    } else {
        Seq::empty()
    }
}

/// `(name, type)` of the first `c` columns whose marker is of the kind asked.
pub open spec fn defs_of(
    header: Seq<Seq<char>>,
    markers: Seq<Seq<char>>,
    types: Seq<Seq<char>>,
    inputs: bool,
    c: int,
) -> Pairs
    decreases c,
{
    if c <= 0 {
        Seq::empty()
    } else {
        let prev = defs_of(header, markers, types, inputs, c - 1);
        if column_kind(cell_at(markers, c - 1), inputs) {
            prev.push((header[c - 1], cell_at(types, c - 1)))
        } else {
            prev
        }
    }
}

/// What a table text describes, or why it is not a table.
pub open spec fn table_of(text: Seq<char>) -> Result<TableModel, TableFormatError> {
    match rows_from(split_on(text, '\n')) {
        Err(e) => Err(e),
        Ok(all) => if all.len() <= 4 {
            Err(TableFormatError::NoDataRows)
        } else {
            let n = all[0].len() as int;
            let inputs = defs_of(all[0], all[1], all[2], true, n);
            let outputs = defs_of(all[0], all[1], all[2], false, n);
            if inputs.len() == 0 || outputs.len() == 0 {
                Err(TableFormatError::MissingInputOrOutput)
            } else if exists|r: int|
                4 <= r < all.len() && #[trigger] all[r].len() != inputs.len() + outputs.len() {
                Err(TableFormatError::RowWidth)
            } else {
                Ok(TableModel { inputs, outputs, rows: all.subrange(4, all.len() as int) })
            }
        },
    }
}

fn read_rows(contents: &str) -> (r: Result<Vec<Row>, TableFormatError>)
    ensures
        match rows_from(split_on(contents@, '\n')) {
            Ok(rs) => r is Ok && row_models(r->Ok_0@) == rs,
            Err(e) => r == Err::<Vec<Row>, TableFormatError>(e),
        },
{
    let cs = chars_of(contents);
    let lines = split_ranges(&cs, 0, cs.len(), '\n');
    let ghost ls = split_on(contents@, '\n');
    assert(cs@.subrange(0, cs@.len() as int) =~= contents@);
    let mut rows: Vec<Row> = Vec::new();
    let mut li: usize = 0;
    assert(ls.subrange(0, 0) =~= Seq::<Seq<char>>::empty());
    assert(row_models(rows@) =~= Seq::<Seq<Seq<char>>>::empty());
    while li < lines.len()
        invariant
            cs@ == contents@,
            ls == split_on(contents@, '\n'),
            lines@.len() == ls.len(),
            forall|x: int|
                0 <= x < lines@.len() ==> #[trigger] lines@[x].0 <= lines@[x].1 <= cs@.len()
                    && cs@.subrange(lines@[x].0 as int, lines@[x].1 as int) == ls[x],
            li <= lines@.len(),
            rows_from(ls.subrange(0, li as int)) == Ok::<_, TableFormatError>(row_models(rows@)),
        decreases lines@.len() - li,
    {
        let ghost prefix = ls.subrange(0, li + 1);
        assert(prefix.drop_last() =~= ls.subrange(0, li as int));
        let (a, b) = lines[li];
        let (ta, tb) = trim_range(&cs, a, b);
        let ghost t = cs@.subrange(ta as int, tb as int);
        assert(t == trim(prefix.last()));
        if ta < tb {
            let parts = split_ranges(&cs, ta, tb, '|');
            if parts.len() < 4 {
                proof {
                    lemma_rows_err(ls, li as int + 1);
                }
                return Err(TableFormatError::InsufficientColumns);
            }
            let ghost ps = split_on(t, '|');
            let mut cells: Vec<String> = Vec::new();
            let mut k: usize = 1;
            let last: usize = parts.len() - 1;
            while k < last
                invariant
                    cs@ == contents@,
                    ps == split_on(t, '|'),
                    t == cs@.subrange(ta as int, tb as int),
                    parts@.len() == ps.len(),
                    last + 1 == parts@.len(),
                    forall|x: int|
                        0 <= x < parts@.len() ==> #[trigger] parts@[x].0 <= parts@[x].1 <= cs@.len()
                            && cs@.subrange(parts@[x].0 as int, parts@[x].1 as int) == ps[x],
                    1 <= k <= last,
                    strings(cells@) == Seq::new((k - 1) as nat, |j: int| trim(ps[j + 1])),
                decreases last - k,
            {
                let (pa, pb) = parts[k];
                assert(cs@.subrange(pa as int, pb as int) == ps[k as int]);
                let (ca, cb) = trim_range(&cs, pa, pb);
                let cell = piece(contents, ca, cb);
                assert(cell@ == trim(ps[k as int]));
                let ghost before = cells@;
                cells.push(cell);
                assert(strings(cells@) =~= strings(before).push(trim(ps[k as int])));
                assert(strings(cells@) =~= Seq::new(k as nat, |j: int| trim(ps[j + 1])));
                k = k + 1;
            }
            let row = Row { cells };
            assert(row.model() =~= row_cells(t));
            let ghost old_rows = rows@;
            rows.push(row);
            assert(row_models(rows@) =~= row_models(old_rows).push(row_cells(t)));
        }
        li = li + 1;
    }
    assert(ls.subrange(0, lines@.len() as int) =~= ls);
    Ok(rows)
}

proof fn lemma_defs_len(header: Seq<Seq<char>>, markers: Seq<Seq<char>>, types: Seq<Seq<char>>, c: int)
    ensures
        defs_of(header, markers, types, true, c).len() + defs_of(header, markers, types, false, c).len()
            <= if c < 0 {
            0
        } else {
            c
        },
    decreases c,
{
    if c > 0 {
        lemma_defs_len(header, markers, types, c - 1);
    }
}

/// Whether two texts hold the same characters.
fn same_text(a: &str, b: &str) -> (r: bool)
    ensures
        r == (a@ == b@),
{
    let x = chars_of(a);
    let y = chars_of(b);
    if x.len() != y.len() {
        return false;
    }
    let mut i: usize = 0;
    while i < x.len()
        invariant
            x@ == a@,
            y@ == b@,
            x@.len() == y@.len(),
            i <= x@.len(),
            forall|j: int| 0 <= j < i ==> x@[j] == y@[j],
        decreases x@.len() - i,
    {
        if x[i] != y[i] {
            return false;
        }
        i = i + 1;
    }
    assert(a@ =~= b@);
    true
}

proof fn lemma_rows_err(ls: Seq<Seq<char>>, k: int)
    requires
        0 <= k <= ls.len(),
        rows_from(ls.subrange(0, k)) is Err,
    ensures
        rows_from(ls) == rows_from(ls.subrange(0, k)),
    decreases ls.len() - k,
{
    if k < ls.len() {
        assert(ls.subrange(0, k + 1).drop_last() =~= ls.subrange(0, k));
        lemma_rows_err(ls, k + 1);
    } else {
        assert(ls.subrange(0, k) =~= ls);
    }
}

fn marker_kind(m: &String, inputs: bool) -> (r: bool)
    ensures
        r == column_kind(m@, inputs),
{
    let s = m.as_str();
    let n = s.unicode_len();
    let is_input = n > 0 && s.get_char(0) == '-' && s.get_char(n - 1) == '-';
    if inputs {
        is_input
    } else {
        !is_input && n >= 2 && s.get_char(n - 2) == '-' && s.get_char(n - 1) == ':'
    }
}

fn column_defs(header: &Vec<String>, markers: &Vec<String>, types: &Vec<String>, inputs: bool) -> (r:
    Vec<(String, String)>)
    ensures
        pairs(r@) == defs_of(
            strings(header@),
            strings(markers@),
            strings(types@),
            inputs,
            header@.len() as int,
        ),
{
    let mut r: Vec<(String, String)> = Vec::new();
    let mut c: usize = 0;
    assert(pairs(r@) =~= Seq::<(Seq<char>, Seq<char>)>::empty());
    while c < header.len()
        invariant
            c <= header@.len(),
            pairs(r@) == defs_of(strings(header@), strings(markers@), strings(types@), inputs, c as int),
        decreases header@.len() - c,
    {
        let kind = if c < markers.len() {
            marker_kind(&markers[c], inputs)
        } else {
            false
        };
        if kind {
            let ghost before = r@;
            let ty = if c < types.len() {
                types[c].clone()
            } else {
                String::new()
            };
            assert(ty@ == cell_at(strings(types@), c as int));
            r.push((header[c].clone(), ty));
            assert(pairs(r@) =~= pairs(before).push((header@[c as int]@, ty@)));
        }
        c = c + 1;
    }
    r
}

/// Reads a decision table: four definition lines (names, input/output
/// markers, declared types, a spare line), then one line per rule.
pub fn parse(contents: &str) -> (r: Result<Table, TableFormatError>)
    ensures
        match table_of(contents@) {
            Ok(m) => r is Ok && r->Ok_0.model() == m && r->Ok_0.wf(),
            Err(e) => r is Err && r->Err_0 == e,
        },
{
    let mut all = match read_rows(contents) {
        Ok(rows) => rows,
        Err(e) => {
            return Err(e);
        },
    };
    let ghost am = row_models(all@);
    if all.len() <= 4 {
        return Err(TableFormatError::NoDataRows);
    }
    assert(am[0] == strings(all@[0].cells@));
    assert(am[1] == strings(all@[1].cells@));
    assert(am[2] == strings(all@[2].cells@));
    let inputs = column_defs(&all[0].cells, &all[1].cells, &all[2].cells, true);
    let outputs = column_defs(&all[0].cells, &all[1].cells, &all[2].cells, false);
    if inputs.len() == 0 || outputs.len() == 0 {
        return Err(TableFormatError::MissingInputOrOutput);
    }
    proof {
        lemma_defs_len(am[0], am[1], am[2], am[0].len() as int);
        assert(pairs(inputs@).len() == inputs@.len());
        assert(pairs(outputs@).len() == outputs@.len());
    }
    let header_len = all[0].cells.len();
    assert(am[0].len() == header_len);
    let width = inputs.len() + outputs.len();
    let mut k: usize = 4;
    while k < all.len()
        invariant
            4 <= k <= all@.len(),
            am == row_models(all@),
            rows_from(split_on(contents@, '\n')) == Ok::<_, TableFormatError>(am),
            pairs(inputs@) == defs_of(am[0], am[1], am[2], true, am[0].len() as int),
            pairs(outputs@) == defs_of(am[0], am[1], am[2], false, am[0].len() as int),
            inputs@.len() > 0,
            outputs@.len() > 0,
            width == pairs(inputs@).len() + pairs(outputs@).len(),
            forall|x: int| 4 <= x < k ==> (#[trigger] all@[x]).cells@.len() == width,
        decreases all@.len() - k,
    {
        if all[k].cells.len() != width {
            assert(am[k as int] == strings(all@[k as int].cells@));
            assert(am[k as int].len() != width);
            assert(4 <= k < am.len());
            return Err(TableFormatError::RowWidth);
        }
        k = k + 1;
    }
    assert forall|x: int| 4 <= x < am.len() implies #[trigger] am[x].len() == width by {
        assert(am[x] == strings(all@[x].cells@));
    }
    let rows = all.split_off(4);
    let t = Table { rows, defs: Definition { inputs, outputs } };
    assert(row_models(t.rows@) =~= am.subrange(4, am.len() as int));
    Ok(t)
}

// ---------------------------------------------------------------------------
// Evaluation
/// Why a table could not be evaluated: a cell that is not a formula.
#[derive(Debug, Clone, PartialEq)]
pub enum TableError {
    Lex(LexError),
    Paren(ParenError),
}

pub enum TableErrorModel {
    Lex(LexErrorModel),
    Paren(ParenError),
}

impl View for TableError {
    type V = TableErrorModel;

    open spec fn view(&self) -> TableErrorModel {
        match self {
            TableError::Lex(e) => TableErrorModel::Lex(e@),
            TableError::Paren(e) => TableErrorModel::Paren(*e),
        }
    }
}

/// The tokens of a cell with the context value in front: `value = cell`, or
/// just `value cell` when the cell starts with an operator.
pub open spec fn cell_tokens(value: OperandModel, ts: Seq<OperandModel>) -> Seq<OperandModel> {
    if ts.len() > 0 && ts[0] is OperatorToken {
        seq![value] + ts
    } else {
        seq![value, OperandModel::OperatorToken(Operator::E)] + ts
    }
}

/// Whether an input cell holds for the context value of its column.
pub open spec fn cell_holds(cell: Seq<char>, name: Seq<char>, ctx: JsonModel) -> Result<
    bool,
    TableErrorModel,
> {
    match lex(cell) {
        Err(e) => Err(TableErrorModel::Lex(e)),
        Ok(ts) => match postfix_of(cell_tokens(operand_of(lookup(name, ctx)), ts)) {
            Err(e) => Err(TableErrorModel::Paren(e)),
            Ok(p) => {
                let st = eval_postfix(p);
                Ok(st.len() > 0 && st[0] == OperandModel::Primitive(ScalarModel::Bool(true)))
            },
        },
    }
}

/// Whether the input cells from column `c` on all hold; evaluation stops at
/// the first that does not.
pub open spec fn row_holds(t: TableModel, row: Seq<Seq<char>>, ctx: JsonModel, c: int) -> Result<
    bool,
    TableErrorModel,
>
    decreases t.inputs.len() - c,
{
    if c < 0 || c >= t.inputs.len() {
        Ok(true)
    } else {
        match cell_holds(row[c], t.inputs[c].0, ctx) {
            Err(e) => Err(e),
            Ok(false) => Ok(false),
            Ok(true) => row_holds(t, row, ctx, c + 1),
        }
    }
}

/// Whether a later output column has the same name as output column `j`.
pub open spec fn named_later(outputs: Pairs, j: int) -> bool {
    exists|x: int| j < x < outputs.len() && (#[trigger] outputs[x]).0 == outputs[j].0
}

/// The outputs of the first `j` output columns, each with its cell text; of
/// columns that share a name only the last is kept, so names are unique.
pub open spec fn output_upto(t: TableModel, row: Seq<Seq<char>>, j: int) -> Seq<
    (Seq<char>, OperandModel),
>
    decreases j,
{
    if j <= 0 {
        Seq::empty()
    } else {
        let prev = output_upto(t, row, j - 1);
        if named_later(t.outputs, j - 1) {
            prev
        } else {
            prev.push(
                (
                    t.outputs[j - 1].0,
                    OperandModel::Primitive(ScalarModel::Str(row[t.inputs.len() + j - 1])),
                ),
            )
        }
    }
}

/// The output of a matching row: each output column with its cell text.
pub open spec fn row_output(t: TableModel, row: Seq<Seq<char>>) -> Seq<(Seq<char>, OperandModel)> {
    output_upto(t, row, t.outputs.len() as int)
}

/// The outputs of the matching rows among the first `n`, in row order.
pub open spec fn run_rows(t: TableModel, ctx: JsonModel, n: int) -> Result<
    Seq<Seq<(Seq<char>, OperandModel)>>,
    TableErrorModel,
>
    decreases n,
{
    if n <= 0 {
        Ok(Seq::empty())
    } else {
        match run_rows(t, ctx, n - 1) {
            Err(e) => Err(e),
            Ok(acc) => match row_holds(t, t.rows[n - 1], ctx, 0) {
                Err(e) => Err(e),
                Ok(true) => Ok(acc.push(row_output(t, t.rows[n - 1]))),
                Ok(false) => Ok(acc),
            },
        }
    }
}

/// The outputs of one matching row, in column order.
pub struct OutputMap {
    pub entries: Vec<(String, Operand)>,
}

pub struct TableOutputs {
    pub list: Vec<OutputMap>,
}

pub open spec fn entries_model(v: Seq<(String, Operand)>) -> Seq<(Seq<char>, OperandModel)> {
    v.map_values(|p: (String, Operand)| (p.0@, p.1@))
}

pub open spec fn outputs_model(v: Seq<OutputMap>) -> Seq<Seq<(Seq<char>, OperandModel)>> {
    v.map_values(|m: OutputMap| entries_model(m.entries@))
}

impl OutputMap {
    /// The value of the last entry named `key`.
    pub fn get(&self, key: &str) -> (r: Option<&Operand>)
        ensures
            match r {
                Some(o) => exists|j: int|
                    0 <= j < self.entries@.len() && self.entries@[j].0@ == key@
                        && #[trigger] self.entries@[j].1 == *o && forall|x: int|
                        j < x < self.entries@.len() ==> #[trigger] self.entries@[x].0@ != key@,
                None => forall|j: int|
                    0 <= j < self.entries@.len() ==> #[trigger] self.entries@[j].0@ != key@,
            },
    {
        let mut j: usize = self.entries.len();
        while j > 0
            invariant
                j <= self.entries@.len(),
                forall|x: int| j <= x < self.entries@.len() ==> #[trigger] self.entries@[x].0@ != key@,
            decreases j,
        {
            j = j - 1;
            if same_text(self.entries[j].0.as_str(), key) {
                return Some(&self.entries[j].1);
            }
        }
        None
    }

    pub fn contains_key(&self, key: &str) -> (r: bool)
        ensures
            r == exists|j: int| 0 <= j < self.entries@.len() && #[trigger] self.entries@[j].0@ == key@,
    {
        match self.get(key) {
            Some(_) => true,
            None => false,
        }
    }
}

fn cell_check(cell: &String, name: &String, context: &JsonValue) -> (r: Result<bool, TableError>)
    ensures
        match cell_holds(cell@, name@, context.model()) {
            Ok(b) => r == Ok::<bool, TableError>(b),
            Err(e) => r is Err && r->Err_0@ == e,
        },
{
    let value = var_to_operand(name, context);
    let mut parser = Tokenizer::new(cell.as_str());
    match parser.parse() {
        Ok(()) => {},
        Err(e) => {
            return Err(TableError::Lex(e));
        },
    }
    let ghost ts = parser.tokens();
    if !parser.starts_with_operand() {
        parser.insert_start(Operand::OperatorToken(Operator::E));
    }
    parser.insert_start(value);
    assert(parser.tokens() =~= cell_tokens(value@, ts));
    let expression = match parser.to_postfix() {
        Ok(p) => p,
        Err(e) => {
            return Err(TableError::Paren(e));
        },
    };
    let result = interpret(&expression);
    if result.len() > 0 {
        match &result[0] {
            Operand::Primitive(Scalar::Bool(true)) => Ok(true),
            _ => Ok(false),
        }
    } else {
        Ok(false)
    }
}

/// Evaluates every row against `context` and collects the outputs of those
/// whose input cells all hold, in row order. Output cells are copied as text.
pub fn run_table(table: &Table, context: &JsonValue) -> (r: Result<TableOutputs, TableError>)
    requires
        table.wf(),
    ensures
        match run_rows(table.model(), context.model(), table.rows@.len() as int) {
            Ok(list) => r is Ok && outputs_model(r->Ok_0.list@) == list,
            Err(e) => r is Err && r->Err_0@ == e,
        },
{
    let ghost tm = table.model();
    let mut outputs: Vec<OutputMap> = Vec::new();
    let n_in = table.defs.inputs.len();
    let n_out = table.defs.outputs.len();
    let mut ri: usize = 0;
    assert(outputs_model(outputs@) =~= Seq::<Seq<(Seq<char>, OperandModel)>>::empty());
    while ri < table.rows.len()
        invariant
            tm == table.model(),
            table.wf(),
            n_in == table.defs.inputs@.len(),
            n_out == table.defs.outputs@.len(),
            ri <= table.rows@.len(),
            run_rows(tm, context.model(), ri as int) == Ok::<_, TableErrorModel>(outputs_model(outputs@)),
        decreases table.rows@.len() - ri,
    {
        let row = &table.rows[ri];
        let ghost rm = tm.rows[ri as int];
        assert(rm == row.model());
        let mut holds = true;
        let mut c: usize = 0;
        while c < n_in
            invariant_except_break
                holds,
            invariant
                tm == table.model(),
                table.wf(),
                n_in == table.defs.inputs@.len(),
                ri < table.rows@.len(),
                *row == table.rows@[ri as int],
                rm == row.model(),
                c <= n_in,
                run_rows(tm, context.model(), ri as int) is Ok,
                row_holds(tm, rm, context.model(), 0) == row_holds(tm, rm, context.model(), c as int),
            ensures
                holds ==> row_holds(tm, rm, context.model(), 0) == Ok::<bool, TableErrorModel>(true),
                !holds ==> row_holds(tm, rm, context.model(), 0) == Ok::<bool, TableErrorModel>(false),
            decreases n_in - c,
        {
            assert(tm.inputs[c as int].0 == table.defs.inputs@[c as int].0@);
            assert(rm[c as int] == row.cells@[c as int]@);
            match cell_check(&row.cells[c], &table.defs.inputs[c].0, context) {
                Ok(true) => {},
                Ok(false) => {
                    holds = false;
                    break;
                },
                Err(e) => {
                    proof {
                        assert(row_holds(tm, rm, context.model(), c as int) is Err);
                        assert(tm.rows[ri as int] == rm);
                        assert(run_rows(tm, context.model(), ri + 1) is Err);
                        lemma_run_rows_err(tm, context.model(), ri as int + 1);
                    }
                    return Err(e);
                },
            }
            c = c + 1;
        }
        if holds {
            let mut entries: Vec<(String, Operand)> = Vec::new();
            let mut j: usize = 0;
            let width = row.cells.len();
            assert(row.cells@.len() == n_in + n_out);
            assert(entries_model(entries@) =~= output_upto(tm, rm, 0));
            while j < n_out
                invariant
                    tm == table.model(),
                    table.wf(),
                    n_in == table.defs.inputs@.len(),
                    n_out == table.defs.outputs@.len(),
                    ri < table.rows@.len(),
                    *row == table.rows@[ri as int],
                    rm == row.model(),
                    j <= n_out,
                    row.cells@.len() == n_in + n_out,
                    width == n_in + n_out,
                    entries_model(entries@) == output_upto(tm, rm, j as int),
                decreases n_out - j,
            {
                assert(row.cells@.len() == n_in + n_out);
                assert(tm.outputs[j as int].0 == table.defs.outputs@[j as int].0@);
                assert(rm[n_in + j] == row.cells@[n_in + j]@);
                let mut later = false;
                let mut x: usize = j + 1;
                while x < n_out
                    invariant_except_break
                        !later,
                    invariant
                        tm == table.model(),
                        n_out == table.defs.outputs@.len(),
                        j < x <= n_out,
                        forall|y: int| j < y < x ==> (#[trigger] tm.outputs[y]).0 != tm.outputs[j as int].0,
                    ensures
                        later ==> named_later(tm.outputs, j as int),
                        !later ==> x >= n_out,
                    decreases n_out - x,
                {
                    assert(tm.outputs[x as int].0 == table.defs.outputs@[x as int].0@);
                    assert(tm.outputs[j as int].0 == table.defs.outputs@[j as int].0@);
                    if table.defs.outputs[x].0 == table.defs.outputs[j].0 {
                        later = true;
                        assert(j < x < tm.outputs.len() && tm.outputs[x as int].0 == tm.outputs[j as int].0);
                        break;
                    }
                    x = x + 1;
                }
                assert(later == named_later(tm.outputs, j as int));
                if !later {
                    let key = table.defs.outputs[j].0.clone();
                    let text = row.cells[j + n_in].clone();
                    let ghost before = entries@;
                    let item = (key, Operand::Primitive(Scalar::String(text)));
                    assert(tm.inputs.len() == n_in);
                    entries.push(item);
                    assert(entries_model(entries@) =~= entries_model(before).push((item.0@, item.1@)));
                }
                j = j + 1;
            }
            let ghost before = outputs@;
            outputs.push(OutputMap { entries });
            assert(outputs_model(outputs@) =~= outputs_model(before).push(row_output(tm, rm)));
        }
        ri = ri + 1;
    }
    Ok(TableOutputs { list: outputs })
}

proof fn lemma_run_rows_err(t: TableModel, ctx: JsonModel, k: int)
    requires
        0 <= k <= t.rows.len(),
        run_rows(t, ctx, k) is Err,
    ensures
        run_rows(t, ctx, t.rows.len() as int) == run_rows(t, ctx, k),
    decreases t.rows.len() - k,
{
    if k < t.rows.len() {
        lemma_run_rows_err(t, ctx, k + 1);
    }
}

} // verus!
