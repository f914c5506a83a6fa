use crate::filters::{
    capture_map, lemma_ops_view, op_view, ops_view, Condition, Expression, LogView, Operation,
    SpecCondition, SpecExpression, SpecOperation,
};
use crate::readers::LogReader;
use crate::varmap::{map_of_entries, VarMap};
use vstd::prelude::*;

verus! {

broadcast use lemma_ops_view;

// ---------------------------------------------------------------------------
// Records and their models.
// ---------------------------------------------------------------------------
/// The color annotation of a record.
pub enum Color {
    Default,
    Fixed { color: String },
    FromValue { value: String },
}

/// One input line, plus the variables and color accumulated while a rule
/// set was evaluated against it.
pub struct Record {
    pub text: String,
    pub variables: VarMap,
    pub color: Color,
}

/// The model of a `Color`.
pub enum SpecColor {
    Default,
    Fixed { color: Seq<char> },
    FromValue { value: Seq<char> },
}

/// The model of a `Record`.
pub struct SpecRecord {
    pub text: Seq<char>,
    pub vars: Map<Seq<char>, Seq<char>>,
    pub color: SpecColor,
}

impl View for Color {
    type V = SpecColor;

    open spec fn view(&self) -> SpecColor {
        match self {
            Color::Default => SpecColor::Default,
            Color::Fixed { color } => SpecColor::Fixed { color: color@ },
            Color::FromValue { value } => SpecColor::FromValue { value: value@ },
        }
    }
}

impl View for Record {
    type V = SpecRecord;

    open spec fn view(&self) -> SpecRecord {
        SpecRecord { text: self.text@, vars: self.variables@, color: self.color@ }
    }
}

/// A record as it enters evaluation: raw text, no variables, default color.
pub open spec fn spec_fresh_record(text: Seq<char>) -> SpecRecord {
    SpecRecord { text, vars: Map::empty(), color: SpecColor::Default }
}

impl Record {
    /// Wraps one raw line into a fresh working record.
    pub fn new(text: String) -> (r: Record)
        ensures
            r@ == spec_fresh_record(text@),
    {
        Record { text, variables: VarMap::new(), color: Color::Default }
    }
}

// ---------------------------------------------------------------------------
// The evaluation engine's model: a pure interpreter of the operation tree.
// ---------------------------------------------------------------------------
/// What evaluating an expression yields. Missing variables resolve to the
/// empty string; evaluation is total.
pub open spec fn spec_evaluate(
    e: SpecExpression,
    rec: SpecRecord,
    st: Map<Seq<char>, Seq<char>>,
) -> Seq<char> {
    match e {
        SpecExpression::Record => rec.text,
        SpecExpression::Var(name) => if rec.vars.contains_key(name) {
            rec.vars[name]
        } else {
            Seq::empty()
        },
        SpecExpression::LastVarValue(name) => if st.contains_key(name) {
            st[name]
        } else {
            Seq::empty()
        },
        SpecExpression::Constant(value) => value,
    }
}

/// The outcome of running operations against one record: the mutated
/// record, the mutated cross-record state, and whether the record is kept.
pub struct SpecStep {
    pub record: SpecRecord,
    pub state: Map<Seq<char>, Seq<char>>,
    pub keep: bool,
}

/// Runs one operation against a record.
pub open spec fn spec_apply_op(
    op: SpecOperation,
    rec: SpecRecord,
    st: Map<Seq<char>, Seq<char>>,
) -> SpecStep
    decreases op, 0int,
{
    match op {
        SpecOperation::If { condition, then_ops, else_ops } => match condition {
            SpecCondition::Match { expression, pattern } => {
                let value = spec_evaluate(expression, rec, st);
                match capture_map(pattern, value) {
                    Some(b) => spec_apply_ops(
                        then_ops,
                        SpecRecord {
                            text: rec.text,
                            vars: rec.vars.union_prefer_right(b),
                            color: rec.color,
                        },
                        st.union_prefer_right(b),
                    ),
                    None => spec_apply_ops(else_ops, rec, st),
                }
            },
        },
        SpecOperation::SetVar { target, expression } => {
            let value = spec_evaluate(expression, rec, st);
            SpecStep {
                record: SpecRecord {
                    text: rec.text,
                    vars: rec.vars.insert(target, value),
                    color: rec.color,
                },
                state: st.insert(target, value),
                keep: true,
            }
        },
        SpecOperation::ColorBy(expression) => {
            let value = spec_evaluate(expression, rec, st);
            SpecStep {
                record: SpecRecord {
                    text: rec.text,
                    vars: rec.vars,
                    color: SpecColor::FromValue { value },
                },
                state: st,
                keep: true,
            }
        },
        SpecOperation::SkipRecord => SpecStep { record: rec, state: st, keep: false },
    }
}

/// Runs a list of operations in order; a skip aborts the rest of the list.
pub open spec fn spec_apply_ops(
    ops: Seq<SpecOperation>,
    rec: SpecRecord,
    st: Map<Seq<char>, Seq<char>>,
) -> SpecStep
    decreases ops, 1int,
{
    if ops.len() == 0 {
        SpecStep { record: rec, state: st, keep: true }
    } else {
        let step = spec_apply_op(ops[0], rec, st);
        if step.keep {
            spec_apply_ops(ops.subrange(1, ops.len() as int), step.record, step.state)
        } else {
            step
        }
    }
}

/// Splitting a list of operations: the second part runs only if the first
/// kept the record, from the record and state the first part left behind.
pub proof fn lemma_apply_ops_concat(
    ops1: Seq<SpecOperation>,
    ops2: Seq<SpecOperation>,
    rec: SpecRecord,
    st: Map<Seq<char>, Seq<char>>,
)
    ensures
        spec_apply_ops(ops1 + ops2, rec, st) == ({
            let step = spec_apply_ops(ops1, rec, st);
            if step.keep {
                spec_apply_ops(ops2, step.record, step.state)
            } else {
                step
            }
        }),
    decreases ops1.len(),
{
    if ops1.len() == 0 {
        assert(ops1 + ops2 =~= ops2);
    } else {
        assert((ops1 + ops2)[0] == ops1[0]);
        assert((ops1 + ops2).subrange(1, (ops1 + ops2).len() as int) =~= ops1.subrange(
            1,
            ops1.len() as int,
        ) + ops2);
        let step = spec_apply_op(ops1[0], rec, st);
        if step.keep {
            lemma_apply_ops_concat(
                ops1.subrange(1, ops1.len() as int),
                ops2,
                step.record,
                step.state,
            );
        }
    }
}

// ---------------------------------------------------------------------------
// The executable engine.
// ---------------------------------------------------------------------------
/// The cross-record memory of a processing run: the last value ever bound
/// to each variable, whichever record bound it.
pub struct FilterInner {
    variables_last: VarMap,
}

impl View for FilterInner {
    type V = Map<Seq<char>, Seq<char>>;

    closed spec fn view(&self) -> Map<Seq<char>, Seq<char>> {
        self.variables_last@
    }
}

impl Default for FilterInner {
    /// A fresh run: no variable has ever been bound.
    fn default() -> (r: FilterInner)
        ensures
            r@ == Map::<Seq<char>, Seq<char>>::empty(),
    {
        FilterInner { variables_last: VarMap::new() }
    }
}

impl FilterInner {
    /// Binds `key` to `value` on the record and in the cross-record memory,
    /// together and unconditionally.
    pub fn set_variable(&mut self, record: &mut Record, key: String, value: String)
        ensures
            final(record)@.text == old(record)@.text,
            final(record)@.color == old(record)@.color,
            final(record)@.vars == old(record)@.vars.insert(key@, value@),
            final(self)@ == old(self)@.insert(key@, value@),
    {
        record.variables.insert(key.clone(), value.clone());
        self.variables_last.insert(key, value);
    }

    /// Evaluates an expression against the record and the cross-record
    /// memory. Total: a variable never bound reads as the empty string.
    pub fn evaluate(&self, expression: &Expression, record: &Record) -> (r: String)
        ensures
            r@ == spec_evaluate(expression@, record@, self@),
            expression matches Expression::Var(name) && !record@.vars.contains_key(name@) ==> r@
                == Seq::<char>::empty(),
    {
        match expression {
            Expression::Record => record.text.clone(),
            Expression::Var(name) => match record.variables.get(name) {
                Some(v) => v.clone(),
                None => String::new(),
            },
            Expression::LastVarValue(name) => match self.variables_last.get(name) {
                Some(v) => v.clone(),
                None => String::new(),
            },
            Expression::Constant(value) => value.clone(),
        }
    }

    /// Runs a list of operations against one record, in order, mutating the
    /// record and the cross-record memory exactly as the model interpreter
    /// does. Returns whether the record is kept: `false` iff a skip fired
    /// anywhere in the subtree actually executed.
    pub fn apply_operations(&mut self, record: &mut Record, operations: &[Operation]) -> (keep:
        bool)
        ensures
            ({
                let step = spec_apply_ops(ops_view(operations@), old(record)@, old(self)@);
                final(record)@ == step.record && final(self)@ == step.state && keep == step.keep
            }),
        decreases operations@,
    {
        let ghost all = ops_view(operations@);
        let ghost rec0 = record@;
        let ghost st0 = self@;
        let n = operations.len();
        let mut i: usize = 0;
        proof {
            assert(operations@.subrange(0, n as int) =~= operations@);
        }
        while i < n
            invariant
                n == operations.len(),
                i <= n,
                all == ops_view(operations@),
                rec0 == old(record)@,
                st0 == old(self)@,
                spec_apply_ops(all, rec0, st0) == spec_apply_ops(
                    ops_view(operations@.subrange(i as int, n as int)),
                    record@,
                    self@,
                ),
            decreases n - i,
        {
            let ghost rest = ops_view(operations@.subrange(i as int, n as int));
            let ghost reci = record@;
            let ghost sti = self@;
            proof {
                assert(operations@.subrange(i as int, n as int)[0] == operations@[i as int]);
                assert(rest[0] == op_view(operations@[i as int]));
                assert(ops_view(operations@.subrange(i + 1, n as int)) =~= rest.subrange(
                    1,
                    rest.len() as int,
                )) by {
                    let tail = operations@.subrange(i + 1, n as int);
                    let whole = operations@.subrange(i as int, n as int);
                    assert(forall|k: int|
                        0 <= k < tail.len() ==> tail[k] == #[trigger] whole[k + 1]);
                    assert(forall|k: int|
                        0 <= k < tail.len() ==> ops_view(tail)[k] == op_view(tail[k])
                            && rest.subrange(1, rest.len() as int)[k] == rest[k + 1]);
                }
            }
            match &operations[i] {
                Operation::If { condition, then_ops, else_ops } => {
                    match condition {
                        Condition::Match { expression, pattern } => {
                            let value = self.evaluate(expression, record);
                            match pattern.match_string(&value) {
                                Some(m) => {
                                    let ghost b = capture_map(pattern.source(), value@);
                                    let entries = m.entries();
                                    let ghost ent = entries@;
                                    let ghost recb = record@;
                                    let ghost stb = self@;
                                    let en = entries.len();
                                    let mut j: usize = 0;
                                    proof {
                                        assert(recb.vars.union_prefer_right(
                                            map_of_entries(ent.take(0)),
                                        ) =~= recb.vars);
                                        assert(stb.union_prefer_right(map_of_entries(ent.take(0)))
                                            =~= stb);
                                        assert(ent.take(en as int) =~= ent);
                                    }
                                    while j < en
                                        invariant
                                            en == entries@.len(),
                                            j <= en,
                                            ent == entries@,
                                            record@.text == recb.text,
                                            record@.color == recb.color,
                                            record@.vars == recb.vars.union_prefer_right(
                                                map_of_entries(ent.take(j as int)),
                                            ),
                                            self@ == stb.union_prefer_right(
                                                map_of_entries(ent.take(j as int)),
                                            ),
                                        decreases en - j,
                                    {
                                        let ghost bj = map_of_entries(ent.take(j as int));
                                        proof {
                                            assert(ent.take(j + 1).drop_last() =~= ent.take(
                                                j as int,
                                            ));
                                        }
                                        let pair_key = entries[j].0.clone();
                                        let pair_value = entries[j].1.clone();
                                        self.set_variable(record, pair_key, pair_value);
                                        proof {
                                            let k = ent[j as int].0@;
                                            let v = ent[j as int].1@;
                                            assert(map_of_entries(ent.take(j + 1)) == bj.insert(
                                                k,
                                                v,
                                            ));
                                            assert(recb.vars.union_prefer_right(bj).insert(k, v)
                                                =~= recb.vars.union_prefer_right(bj.insert(k, v)));
                                            assert(stb.union_prefer_right(bj).insert(k, v)
                                                =~= stb.union_prefer_right(bj.insert(k, v)));
                                        }
                                        j += 1;
                                    }
                                    proof {
                                        assert(Some(map_of_entries(ent)) == b);
                                    }
                                    let keep = self.apply_operations(record, then_ops.as_slice());
                                    if !keep {
                                        proof {
                                            assert(spec_apply_ops(all, rec0, st0)
                                                == spec_apply_op(rest[0], reci, sti));
                                        }
                                        return false;
                                    }
                                },
                                None => {
                                    let keep = self.apply_operations(record, else_ops.as_slice());
                                    if !keep {
                                        proof {
                                            assert(spec_apply_ops(all, rec0, st0)
                                                == spec_apply_op(rest[0], reci, sti));
                                        }
                                        return false;
                                    }
                                },
                            }
                        },
                    }
                },
                Operation::SetVar { target, expression } => {
                    let value = self.evaluate(expression, record);
                    self.set_variable(record, target.clone(), value);
                },
                Operation::ColorBy(expression) => {
                    let value = self.evaluate(expression, record);
                    record.color = Color::FromValue { value };
                },
                Operation::SkipRecord => {
                    proof {
                        assert(spec_apply_ops(all, rec0, st0) == spec_apply_op(
                            rest[0],
                            reci,
                            sti,
                        ));
                    }
                    return false;
                },
            }
            i += 1;
        }
        proof {
            assert(operations@.subrange(n as int, n as int) =~= Seq::<Operation>::empty());
        }
        true
    }
}

// ---------------------------------------------------------------------------
// Running a whole sequence of lines through one view.
// ---------------------------------------------------------------------------
/// The records a processing run emits: each line is wrapped fresh, run
/// through the operations against the threaded cross-record state, and kept
/// or dropped; dropping a record is invisible in the output.
pub open spec fn spec_run(
    ops: Seq<SpecOperation>,
    lines: Seq<Seq<char>>,
    st: Map<Seq<char>, Seq<char>>,
) -> Seq<SpecRecord>
    decreases lines.len(),
{
    if lines.len() == 0 {
        Seq::empty()
    } else {
        let step = spec_apply_ops(ops, spec_fresh_record(lines[0]), st);
        let rest = spec_run(ops, lines.subrange(1, lines.len() as int), step.state);
        if step.keep {
            seq![step.record] + rest
        } else {
            rest
        }
    }
}

/// Runs every line of `lines` through `view` with a fresh run state,
/// returning the kept records in order.
pub fn process_lines(view: &LogView, lines: Vec<String>) -> (out: Vec<Record>)
    ensures
        out@.map_values(|r: Record| r@) == spec_run(
            view@,
            lines.deep_view(),
            Map::<Seq<char>, Seq<char>>::empty(),
        ),
{
    let ghost linesv = lines.deep_view();
    let mut filter = FilterInner::default();
    let mut out: Vec<Record> = Vec::new();
    let n = lines.len();
    let mut i: usize = 0;
    proof {
        assert(linesv.subrange(0, n as int) =~= linesv);
        assert(out@.map_values(|r: Record| r@) =~= Seq::<SpecRecord>::empty());
    }
    while i < n
        invariant
            n == lines.len(),
            i <= n,
            linesv == lines.deep_view(),
            spec_run(view@, linesv, Map::<Seq<char>, Seq<char>>::empty()) == out@.map_values(
                |r: Record| r@,
            ) + spec_run(view@, linesv.subrange(i as int, n as int), filter@),
        decreases n - i,
    {
        proof {
            assert(linesv.subrange(i as int, n as int)[0] == linesv[i as int]);
            assert(lines.deep_view()[i as int] == lines@[i as int]@);
            assert(linesv.subrange(i as int, n as int).subrange(
                1,
                linesv.subrange(i as int, n as int).len() as int,
            ) =~= linesv.subrange(i + 1, n as int));
        }
        let mut record = Record::new(lines[i].clone());
        let keep = filter.apply_operations(&mut record, view.operations.as_slice());
        if keep {
            let ghost prev = out@;
            out.push(record);
            proof {
                assert(out@.map_values(|r: Record| r@) =~= prev.map_values(|r: Record| r@)
                    + seq![record@]);
                assert(prev.map_values(|r: Record| r@) + (seq![record@] + spec_run(
                    view@,
                    linesv.subrange(i + 1, n as int),
                    filter@,
                )) =~= (prev.map_values(|r: Record| r@) + seq![record@]) + spec_run(
                    view@,
                    linesv.subrange(i + 1, n as int),
                    filter@,
                ));
            }
        }
        i += 1;
    }
    proof {
        assert(linesv.subrange(n as int, n as int) =~= Seq::<Seq<char>>::empty());
        assert(out@.map_values(|r: Record| r@) + Seq::<SpecRecord>::empty() =~= out@.map_values(
            |r: Record| r@,
        ));
    }
    out
}

// ---------------------------------------------------------------------------
// The lazy driver: a record source, a rule set, and the run state, pulled
// one kept record at a time.
// ---------------------------------------------------------------------------
/// Composes a record source, a rule set, and the cross-record run state
/// into a lazy sequence of kept records. Once end of stream or an I/O
/// error has been surfaced, the run is exhausted: every later pull yields
/// nothing, without touching the source again.
pub struct FilteredLogIterator<R: LogReader> {
    filter: FilterInner,
    reader: R,
    view: LogView,
    exhausted: bool,
}

impl<R: LogReader> FilteredLogIterator<R> {
    /// The rule set this run evaluates.
    pub closed spec fn rules(&self) -> Seq<SpecOperation> {
        self.view@
    }

    /// The cross-record variable memory accumulated so far.
    pub closed spec fn memory(&self) -> Map<Seq<char>, Seq<char>> {
        self.filter@
    }

    /// The lines of the source, in order.
    pub closed spec fn source_lines(&self) -> Seq<Seq<char>> {
        self.reader.lines()
    }

    /// How many lines of the source have been consumed.
    pub closed spec fn source_position(&self) -> int {
        self.reader.position()
    }

    /// Whether end of stream or an I/O error has already been surfaced.
    pub closed spec fn is_exhausted(&self) -> bool {
        self.exhausted
    }

    /// The lines of the source not yet consumed.
    pub open spec fn pending(&self) -> Seq<Seq<char>> {
        if 0 <= self.source_position() <= self.source_lines().len() {
            self.source_lines().skip(self.source_position())
        } else {
            Seq::empty()
        }
    }

    /// Pulls the next kept record: reads lines from the source, runs each
    /// through the rule set, silently dropping skipped ones, until one is
    /// kept (`Ok(Some(..))`), the source ends (`Ok(None)`), or the source
    /// fails (`Err(..)`). A record that comes out is the head of the run
    /// over the pending lines, and the memory is what the engine left
    /// behind; end of stream comes exactly when that run emits nothing
    /// more. After an end or an error the run is exhausted and every
    /// later pull returns `Ok(None)` without reading the source.
    pub fn next_triable(&mut self) -> (r: Result<Option<Record>, std::io::Error>)
        ensures
            final(self).rules() == old(self).rules(),
            final(self).source_lines() == old(self).source_lines(),
            old(self).is_exhausted() ==> (r matches Ok(None) && *final(self) == *old(self)),
            r matches Ok(Some(rec)) ==> (!final(self).is_exhausted() && spec_run(
                old(self).rules(),
                old(self).pending(),
                old(self).memory(),
            ) == seq![rec@] + spec_run(
                final(self).rules(),
                final(self).pending(),
                final(self).memory(),
            )),
            r matches Ok(Some(rec)) ==> exists|text: Seq<char>, st: Map<Seq<char>, Seq<char>>|
                {
                    let step = #[trigger] spec_apply_ops(
                        old(self).rules(),
                        spec_fresh_record(text),
                        st,
                    );
                    step.keep && rec@ == step.record && final(self).memory() == step.state
                },
            (!old(self).is_exhausted() && r matches Ok(None)) ==> spec_run(
                old(self).rules(),
                old(self).pending(),
                old(self).memory(),
            ) == Seq::<SpecRecord>::empty(),
            r matches Ok(None) ==> final(self).is_exhausted(),
            r is Err ==> final(self).is_exhausted(),
    {
        if self.exhausted {
            return Ok(None);
        }
        loop
            invariant
                !self.exhausted,
                !old(self).is_exhausted(),
                self.view == old(self).view,
                self.reader.lines() == old(self).reader.lines(),
                spec_run(self.view@, old(self).pending(), old(self).memory()) == spec_run(
                    self.view@,
                    self.pending(),
                    self.filter@,
                ),
            decreases self.reader.lines().len() - self.reader.position(),
        {
            let ghost pend0 = self.pending();
            let ghost mem0 = self.filter@;
            let ghost pos0 = self.reader.position();
            let text = match self.reader.read_record() {
                Ok(Some(t)) => t,
                Ok(None) => {
                    proof {
                        assert(self.pending() =~= Seq::<Seq<char>>::empty());
                    }
                    self.exhausted = true;
                    return Ok(None);
                },
                Err(e) => {
                    self.exhausted = true;
                    return Err(e);
                },
            };
            let ghost t0 = text@;
            proof {
                assert(pend0.len() == self.reader.lines().len() - pos0);
                assert(pend0[0] == t0);
                assert(self.pending() =~= pend0.subrange(1, pend0.len() as int));
            }
            let mut record = Record::new(text);
            let keep = self.filter.apply_operations(&mut record, self.view.operations.as_slice());
            proof {
                let step = spec_apply_ops(self.view@, spec_fresh_record(t0), mem0);
                assert(spec_run(self.view@, pend0, mem0) == (if step.keep {
                    seq![step.record] + spec_run(self.view@, self.pending(), step.state)
                } else {
                    spec_run(self.view@, self.pending(), step.state)
                }));
            }
            if keep {
                proof {
                    assert(!self.exhausted);
                    assert(self.view@ == old(self).rules());
                    assert(spec_run(old(self).rules(), old(self).pending(), old(self).memory())
                        == spec_run(self.view@, pend0, mem0));
                    let step = spec_apply_ops(self.view@, spec_fresh_record(t0), mem0);
                    assert(record@ == step.record && self.filter@ == step.state && step.keep);
                    assert(spec_run(self.view@, pend0, mem0) == seq![record@] + spec_run(
                        self.view@,
                        self.pending(),
                        self.filter@,
                    ));
                }
                return Ok(Some(record));
            }
        }
    }

    /// Pulls the next item: a kept record, an I/O error, or nothing. The
    /// sequence ends — and stays ended — at the first end of stream or
    /// I/O error: from then on every call returns `None` without reading
    /// the source.
    pub fn next(&mut self) -> (r: Option<Result<Record, std::io::Error>>)
        ensures
            final(self).rules() == old(self).rules(),
            final(self).source_lines() == old(self).source_lines(),
            old(self).is_exhausted() ==> (r is None && *final(self) == *old(self)),
            r matches Some(Ok(rec)) ==> (!final(self).is_exhausted() && spec_run(
                old(self).rules(),
                old(self).pending(),
                old(self).memory(),
            ) == seq![rec@] + spec_run(
                final(self).rules(),
                final(self).pending(),
                final(self).memory(),
            )),
            r matches Some(Ok(rec)) ==> exists|text: Seq<char>, st: Map<Seq<char>, Seq<char>>|
                {
                    let step = #[trigger] spec_apply_ops(
                        old(self).rules(),
                        spec_fresh_record(text),
                        st,
                    );
                    step.keep && rec@ == step.record && final(self).memory() == step.state
                },
            (!old(self).is_exhausted() && r is None) ==> spec_run(
                old(self).rules(),
                old(self).pending(),
                old(self).memory(),
            ) == Seq::<SpecRecord>::empty(),
            r is None ==> final(self).is_exhausted(),
            r matches Some(Err(_)) ==> final(self).is_exhausted(),
    {
        match self.next_triable() {
            Ok(Some(r)) => Some(Ok(r)),
            Ok(None) => None,
            Err(e) => Some(Err(e)),
        }
    }
}

/// Starts a processing run of `view` over `reader`, with fresh variable
/// memory and nothing surfaced yet.
pub fn process<R: LogReader>(reader: R, view: LogView) -> (it: FilteredLogIterator<R>)
    ensures
        it.rules() == view@,
        it.memory() == Map::<Seq<char>, Seq<char>>::empty(),
        it.source_lines() == reader.lines(),
        it.source_position() == reader.position(),
        !it.is_exhausted(),
{
    FilteredLogIterator { filter: Default::default(), reader, view, exhausted: false }
}

// ---------------------------------------------------------------------------
// Laws of the engine.
// ---------------------------------------------------------------------------
/// A list of operations with no conditional and no skip anywhere: only
/// assignments and colorizations.
pub open spec fn flat_ops(ops: Seq<SpecOperation>) -> bool {
    forall|i: int| 0 <= i < ops.len() ==> (ops[i] is SetVar || ops[i] is ColorBy)
}

/// Whether `op` is an assignment whose target is `k`.
pub open spec fn sets_target(op: SpecOperation, k: Seq<char>) -> bool {
    op matches SpecOperation::SetVar { target, .. } && target == k
}

/// A rule set with no conditional and no skip keeps every record, and its
/// variable mutation is purely additive: a bound name stays bound, and a
/// name becomes bound only by an assignment that targets it.
pub proof fn lemma_flat_ops_additive(
    ops: Seq<SpecOperation>,
    rec: SpecRecord,
    st: Map<Seq<char>, Seq<char>>,
)
    requires
        flat_ops(ops),
    ensures
        ({
            let step = spec_apply_ops(ops, rec, st);
            &&& step.keep
            &&& forall|k: Seq<char>|
                rec.vars.contains_key(k) ==> step.record.vars.contains_key(k)
            &&& forall|k: Seq<char>| st.contains_key(k) ==> step.state.contains_key(k)
            &&& forall|k: Seq<char>|
                step.record.vars.contains_key(k) ==> rec.vars.contains_key(k) || exists|i: int|
                    0 <= i < ops.len() && sets_target(#[trigger] ops[i], k)
            &&& forall|k: Seq<char>|
                step.state.contains_key(k) ==> st.contains_key(k) || exists|i: int|
                    0 <= i < ops.len() && sets_target(#[trigger] ops[i], k)
        }),
    decreases ops.len(),
{
    if ops.len() > 0 {
        assert(ops[0] is SetVar || ops[0] is ColorBy);
        let step0 = spec_apply_op(ops[0], rec, st);
        let tail = ops.subrange(1, ops.len() as int);
        assert(step0.keep);
        assert(forall|k: Seq<char>|
            rec.vars.contains_key(k) ==> step0.record.vars.contains_key(k));
        assert(forall|k: Seq<char>| st.contains_key(k) ==> step0.state.contains_key(k));
        assert(flat_ops(tail)) by {
            assert(forall|i: int| 0 <= i < tail.len() ==> tail[i] == #[trigger] ops[i + 1]);
        }
        lemma_flat_ops_additive(tail, step0.record, step0.state);
        let step = spec_apply_ops(ops, rec, st);
        assert(step == spec_apply_ops(tail, step0.record, step0.state));
        assert(step.keep);
        assert(forall|k: Seq<char>| rec.vars.contains_key(k) ==> step.record.vars.contains_key(k));
        assert(forall|k: Seq<char>| st.contains_key(k) ==> step.state.contains_key(k));
        assert forall|k: Seq<char>| step.record.vars.contains_key(k) implies rec.vars.contains_key(
            k,
        ) || exists|i: int| 0 <= i < ops.len() && sets_target(#[trigger] ops[i], k) by {
            if !rec.vars.contains_key(k) {
                if step0.record.vars.contains_key(k) {
                    assert(sets_target(ops[0], k));
                } else {
                    let i = choose|i: int|
                        0 <= i < tail.len() && sets_target(#[trigger] tail[i], k);
                    assert(sets_target(ops[i + 1], k));
                }
            }
        }
        assert forall|k: Seq<char>| step.state.contains_key(k) implies st.contains_key(k)
            || exists|i: int| 0 <= i < ops.len() && sets_target(#[trigger] ops[i], k) by {
            if !st.contains_key(k) {
                if step0.state.contains_key(k) {
                    assert(sets_target(ops[0], k));
                } else {
                    let i = choose|i: int|
                        0 <= i < tail.len() && sets_target(#[trigger] tail[i], k);
                    assert(sets_target(ops[i + 1], k));
                }
            }
        }
    }
}

/// A skip aborts every sibling after it: once a prefix of a list drops the
/// record, whatever operations follow can never change the outcome.
pub proof fn lemma_skip_short_circuit(
    ops: Seq<SpecOperation>,
    rest: Seq<SpecOperation>,
    rec: SpecRecord,
    st: Map<Seq<char>, Seq<char>>,
)
    requires
        !spec_apply_ops(ops, rec, st).keep,
    ensures
        spec_apply_ops(ops + rest, rec, st) == spec_apply_ops(ops, rec, st),
{
    lemma_apply_ops_concat(ops, rest, rec, st);
}

/// A skip propagates out of a conditional: a conditional drops the record
/// exactly when the branch it took drops it, so a skip at any depth
/// reaches the top-level call.
pub proof fn lemma_skip_propagates_if(
    condition: SpecCondition,
    then_ops: Seq<SpecOperation>,
    else_ops: Seq<SpecOperation>,
    rec: SpecRecord,
    st: Map<Seq<char>, Seq<char>>,
)
    ensures
        ({
            let step = spec_apply_op(
                SpecOperation::If { condition, then_ops, else_ops },
                rec,
                st,
            );
            match condition {
                SpecCondition::Match { expression, pattern } => {
                    let value = spec_evaluate(expression, rec, st);
                    match capture_map(pattern, value) {
                        Some(b) => step.keep == spec_apply_ops(
                            then_ops,
                            SpecRecord {
                                text: rec.text,
                                vars: rec.vars.union_prefer_right(b),
                                color: rec.color,
                            },
                            st.union_prefer_right(b),
                        ).keep,
                        None => step.keep == spec_apply_ops(else_ops, rec, st).keep,
                    }
                },
            }
        }),
{
    let op = SpecOperation::If { condition, then_ops, else_ops };
    let step = spec_apply_op(op, rec, st);
    match condition {
        SpecCondition::Match { expression, pattern } => {
            let value = spec_evaluate(expression, rec, st);
            match capture_map(pattern, value) {
                Some(b) => {
                    assert(step == spec_apply_ops(
                        then_ops,
                        SpecRecord {
                            text: rec.text,
                            vars: rec.vars.union_prefer_right(b),
                            color: rec.color,
                        },
                        st.union_prefer_right(b),
                    ));
                },
                None => {
                    assert(step == spec_apply_ops(else_ops, rec, st));
                },
            }
        },
    }
}

/// A rule set whose sole operation is a skip drops every record: the run
/// over any list of lines emits nothing, whatever state it starts from.
pub proof fn lemma_skip_only_view_drops_all(lines: Seq<Seq<char>>, st: Map<Seq<char>, Seq<char>>)
    ensures
        spec_run(seq![SpecOperation::SkipRecord], lines, st) == Seq::<SpecRecord>::empty(),
    decreases lines.len(),
{
    if lines.len() > 0 {
        let ops = seq![SpecOperation::SkipRecord];
        assert(ops.len() == 1);
        assert(ops[0] == SpecOperation::SkipRecord);
        let fresh = spec_fresh_record(lines[0]);
        let step0 = spec_apply_op(ops[0], fresh, st);
        assert(!step0.keep && step0.state == st);
        assert(spec_apply_ops(ops, fresh, st) == step0);
        assert(spec_run(ops, lines, st) == spec_run(ops, lines.subrange(1, lines.len() as int), st));
        lemma_skip_only_view_drops_all(lines.subrange(1, lines.len() as int), st);
    }
}

/// Re-running the engine over the same lines with the same rule set and a
/// fresh run state yields the same output: the run is a function of the
/// rule set and the input alone, with no hidden state across runs.
pub proof fn lemma_rerun_identical(
    ops: Seq<SpecOperation>,
    lines: Seq<Seq<char>>,
    out1: Seq<SpecRecord>,
    out2: Seq<SpecRecord>,
)
    requires
        out1 == spec_run(ops, lines, Map::<Seq<char>, Seq<char>>::empty()),
        out2 == spec_run(ops, lines, Map::<Seq<char>, Seq<char>>::empty()),
    ensures
        out1 == out2,
{
}

/// The skip-only law at the driver: under the rule set whose sole
/// operation is a skip, the run over the pending lines never has a head
/// record, so the pull relation of `next` can hold of no record — a pull
/// produces no item, whatever lines are pending and whatever the memory.
pub proof fn lemma_skip_only_pull_yields_no_record(
    lines: Seq<Seq<char>>,
    st: Map<Seq<char>, Seq<char>>,
    rec: SpecRecord,
    rest: Seq<SpecRecord>,
)
    ensures
        spec_run(seq![SpecOperation::SkipRecord], lines, st) != seq![rec] + rest,
{
    lemma_skip_only_view_drops_all(lines, st);
    assert((seq![rec] + rest).len() > 0);
}

/// The driver is deterministic: a pulled record and the rest of the run
/// are functions of the rule set, the pending lines and the memory alone,
/// so two runs over sources with identical lines and equal rule sets pull
/// identical records — no hidden state tells them apart.
pub proof fn lemma_pull_deterministic(
    ops: Seq<SpecOperation>,
    lines: Seq<Seq<char>>,
    st: Map<Seq<char>, Seq<char>>,
    rec1: SpecRecord,
    rest1: Seq<SpecRecord>,
    rec2: SpecRecord,
    rest2: Seq<SpecRecord>,
)
    requires
        spec_run(ops, lines, st) == seq![rec1] + rest1,
        spec_run(ops, lines, st) == seq![rec2] + rest2,
    ensures
        rec1 == rec2,
        rest1 == rest2,
{
    assert(rec1 == (seq![rec1] + rest1)[0]);
    assert(rec2 == (seq![rec2] + rest2)[0]);
    assert(rest1 =~= (seq![rec1] + rest1).subrange(1, (seq![rec1] + rest1).len() as int));
    assert(rest2 =~= (seq![rec2] + rest2).subrange(1, (seq![rec2] + rest2).len() as int));
}

/// Whether `ops[i]` is the last assignment to `k` in `ops`.
pub open spec fn last_set_at(ops: Seq<SpecOperation>, i: int, k: Seq<char>) -> bool {
    &&& 0 <= i < ops.len()
    &&& sets_target(ops[i], k)
    &&& forall|j: int| i < j < ops.len() ==> !sets_target(#[trigger] ops[j], k)
}

/// Whether `ops[i]` is the last colorization in `ops`.
pub open spec fn last_color_at(ops: Seq<SpecOperation>, i: int) -> bool {
    &&& 0 <= i < ops.len()
    &&& ops[i] is ColorBy
    &&& forall|j: int| i < j < ops.len() ==> !((#[trigger] ops[j]) is ColorBy)
}

/// Flat operations none of which assigns to `k` leave the binding of `k`
/// untouched, in the record and in the memory alike.
proof fn lemma_flat_preserves_unset_key(
    ops: Seq<SpecOperation>,
    rec: SpecRecord,
    st: Map<Seq<char>, Seq<char>>,
    k: Seq<char>,
)
    requires
        flat_ops(ops),
        forall|j: int| 0 <= j < ops.len() ==> !sets_target(#[trigger] ops[j], k),
    ensures
        ({
            let step = spec_apply_ops(ops, rec, st);
            &&& step.record.vars.contains_key(k) == rec.vars.contains_key(k)
            &&& rec.vars.contains_key(k) ==> step.record.vars[k] == rec.vars[k]
            &&& step.state.contains_key(k) == st.contains_key(k)
            &&& st.contains_key(k) ==> step.state[k] == st[k]
        }),
    decreases ops.len(),
{
    if ops.len() > 0 {
        assert(ops[0] is SetVar || ops[0] is ColorBy);
        assert(!sets_target(ops[0], k));
        let step0 = spec_apply_op(ops[0], rec, st);
        let tail = ops.subrange(1, ops.len() as int);
        assert(flat_ops(tail) && (forall|j: int|
            0 <= j < tail.len() ==> !sets_target(#[trigger] tail[j], k))) by {
            assert(forall|j: int| 0 <= j < tail.len() ==> tail[j] == #[trigger] ops[j + 1]);
        }
        lemma_flat_preserves_unset_key(tail, step0.record, step0.state, k);
    }
}

/// Flat operations with no colorization leave the color untouched.
proof fn lemma_flat_preserves_color(
    ops: Seq<SpecOperation>,
    rec: SpecRecord,
    st: Map<Seq<char>, Seq<char>>,
)
    requires
        flat_ops(ops),
        forall|j: int| 0 <= j < ops.len() ==> !((#[trigger] ops[j]) is ColorBy),
    ensures
        spec_apply_ops(ops, rec, st).record.color == rec.color,
    decreases ops.len(),
{
    if ops.len() > 0 {
        let step0 = spec_apply_op(ops[0], rec, st);
        let tail = ops.subrange(1, ops.len() as int);
        assert(flat_ops(tail) && (forall|j: int|
            0 <= j < tail.len() ==> !((#[trigger] tail[j]) is ColorBy))) by {
            assert(forall|j: int| 0 <= j < tail.len() ==> tail[j] == #[trigger] ops[j + 1]);
        }
        lemma_flat_preserves_color(tail, step0.record, step0.state);
    }
}

/// The run over flat operations, split at `i`: the prefix keeps the
/// record, and the whole run continues from what the prefix left behind.
proof fn lemma_flat_split(
    ops: Seq<SpecOperation>,
    i: int,
    rec: SpecRecord,
    st: Map<Seq<char>, Seq<char>>,
)
    requires
        flat_ops(ops),
        0 <= i <= ops.len(),
    ensures
        ({
            let pre = spec_apply_ops(ops.take(i), rec, st);
            pre.keep && spec_apply_ops(ops, rec, st) == spec_apply_ops(
                ops.subrange(i, ops.len() as int),
                pre.record,
                pre.state,
            )
        }),
{
    assert(flat_ops(ops.take(i))) by {
        assert(forall|j: int| 0 <= j < i ==> ops.take(i)[j] == #[trigger] ops[j]);
    }
    lemma_flat_ops_additive(ops.take(i), rec, st);
    assert(ops =~= ops.take(i) + ops.subrange(i, ops.len() as int));
    lemma_apply_ops_concat(ops.take(i), ops.subrange(i, ops.len() as int), rec, st);
}

/// One more flat operation after a prefix: the run over `ops.take(i + 1)`
/// is the single step of `ops[i]` from what `ops.take(i)` left behind.
proof fn lemma_flat_take_one_more(
    ops: Seq<SpecOperation>,
    i: int,
    rec: SpecRecord,
    st: Map<Seq<char>, Seq<char>>,
)
    requires
        flat_ops(ops),
        0 <= i < ops.len(),
    ensures
        ({
            let pre = spec_apply_ops(ops.take(i), rec, st);
            spec_apply_ops(ops.take(i + 1), rec, st) == spec_apply_op(
                ops[i],
                pre.record,
                pre.state,
            )
        }),
{
    reveal_with_fuel(spec_apply_ops, 3);
    assert(flat_ops(ops.take(i))) by {
        assert(forall|j: int| 0 <= j < i ==> ops.take(i)[j] == #[trigger] ops[j]);
    }
    lemma_flat_ops_additive(ops.take(i), rec, st);
    let pre = spec_apply_ops(ops.take(i), rec, st);
    assert(ops.take(i + 1) =~= ops.take(i) + seq![ops[i]]);
    lemma_apply_ops_concat(ops.take(i), seq![ops[i]], rec, st);
    let one = seq![ops[i]];
    assert(one.len() == 1 && one[0] == ops[i]);
    assert(one.subrange(1, 1) =~= Seq::<SpecOperation>::empty());
    let s1 = spec_apply_op(ops[i], pre.record, pre.state);
    assert(ops[i] is SetVar || ops[i] is ColorBy);
    assert(s1.keep);
    assert(spec_apply_ops(one, pre.record, pre.state) == s1);
}

/// The whole of what a rule set with no conditional and no skip does:
/// every record is kept; no binding is ever removed from the record or
/// the memory; the names written are exactly the targets of its
/// assignments; the assignments run in order, each writing the record and
/// the memory together, and the last assignment to a name decides its
/// value, evaluated where it stands; the color changes only through a
/// colorization, the last of which decides it.
pub proof fn lemma_flat_ops_exact(
    ops: Seq<SpecOperation>,
    rec: SpecRecord,
    st: Map<Seq<char>, Seq<char>>,
)
    requires
        flat_ops(ops),
    ensures
        ({
            let step = spec_apply_ops(ops, rec, st);
            &&& step.keep
            &&& forall|k: Seq<char>|
                rec.vars.contains_key(k) ==> step.record.vars.contains_key(k)
            &&& forall|k: Seq<char>| st.contains_key(k) ==> step.state.contains_key(k)
            &&& forall|k: Seq<char>|
                #[trigger] step.record.vars.contains_key(k) <==> (rec.vars.contains_key(k)
                    || exists|i: int| 0 <= i < ops.len() && sets_target(#[trigger] ops[i], k))
            &&& forall|k: Seq<char>|
                #[trigger] step.state.contains_key(k) <==> (st.contains_key(k) || exists|i: int|
                    0 <= i < ops.len() && sets_target(#[trigger] ops[i], k))
            &&& forall|i: int, k: Seq<char>|
                #[trigger] last_set_at(ops, i, k) ==> ({
                    let pre = spec_apply_ops(ops.take(i), rec, st);
                    let v = spec_evaluate(ops[i]->expression, pre.record, pre.state);
                    &&& step.record.vars.contains_key(k)
                    &&& step.state.contains_key(k)
                    &&& step.record.vars[k] == v
                    &&& step.state[k] == v
                })
            &&& (forall|j: int| 0 <= j < ops.len() ==> !((#[trigger] ops[j]) is ColorBy))
                ==> step.record.color == rec.color
            &&& forall|i: int|
                #[trigger] last_color_at(ops, i) ==> ({
                    let pre = spec_apply_ops(ops.take(i), rec, st);
                    step.record.color == (SpecColor::FromValue {
                        value: spec_evaluate(ops[i]->0, pre.record, pre.state),
                    })
                })
        }),
{
    lemma_flat_ops_additive(ops, rec, st);
    let step = spec_apply_ops(ops, rec, st);
    assert forall|k: Seq<char>, i: int|
        0 <= i < ops.len() && #[trigger] sets_target(ops[i], k) implies step.record.vars.contains_key(
        k,
    ) && step.state.contains_key(k) by {
        lemma_flat_split(ops, i + 1, rec, st);
        lemma_flat_take_one_more(ops, i, rec, st);
        let mid = spec_apply_ops(ops.take(i + 1), rec, st);
        assert(mid.record.vars.contains_key(k) && mid.state.contains_key(k));
        let tail = ops.subrange(i + 1, ops.len() as int);
        assert(flat_ops(tail)) by {
            assert(forall|j: int| 0 <= j < tail.len() ==> tail[j] == #[trigger] ops[j + i + 1]);
        }
        lemma_flat_ops_additive(tail, mid.record, mid.state);
    }
    assert forall|i: int, k: Seq<char>| #[trigger] last_set_at(ops, i, k) implies ({
        let pre = spec_apply_ops(ops.take(i), rec, st);
        let v = spec_evaluate(ops[i]->expression, pre.record, pre.state);
        &&& step.record.vars.contains_key(k)
        &&& step.state.contains_key(k)
        &&& step.record.vars[k] == v
        &&& step.state[k] == v
    }) by {
        lemma_flat_split(ops, i + 1, rec, st);
        lemma_flat_take_one_more(ops, i, rec, st);
        let pre = spec_apply_ops(ops.take(i), rec, st);
        let v = spec_evaluate(ops[i]->expression, pre.record, pre.state);
        let mid = spec_apply_ops(ops.take(i + 1), rec, st);
        assert(mid.record.vars[k] == v && mid.state[k] == v);
        let tail = ops.subrange(i + 1, ops.len() as int);
        assert(flat_ops(tail) && (forall|j: int|
            0 <= j < tail.len() ==> !sets_target(#[trigger] tail[j], k))) by {
            assert(forall|j: int| 0 <= j < tail.len() ==> tail[j] == #[trigger] ops[j + i + 1]);
        }
        lemma_flat_preserves_unset_key(tail, mid.record, mid.state, k);
    }
    if forall|j: int| 0 <= j < ops.len() ==> !((#[trigger] ops[j]) is ColorBy) {
        lemma_flat_preserves_color(ops, rec, st);
    }
    assert forall|i: int| #[trigger] last_color_at(ops, i) implies ({
        let pre = spec_apply_ops(ops.take(i), rec, st);
        step.record.color == (SpecColor::FromValue {
            value: spec_evaluate(ops[i]->0, pre.record, pre.state),
        })
    }) by {
        lemma_flat_split(ops, i + 1, rec, st);
        lemma_flat_take_one_more(ops, i, rec, st);
        let pre = spec_apply_ops(ops.take(i), rec, st);
        let mid = spec_apply_ops(ops.take(i + 1), rec, st);
        assert(mid.record.color == (SpecColor::FromValue {
            value: spec_evaluate(ops[i]->0, pre.record, pre.state),
        }));
        let tail = ops.subrange(i + 1, ops.len() as int);
        assert(flat_ops(tail) && (forall|j: int|
            0 <= j < tail.len() ==> !((#[trigger] tail[j]) is ColorBy))) by {
            assert(forall|j: int| 0 <= j < tail.len() ==> tail[j] == #[trigger] ops[j + i + 1]);
        }
        lemma_flat_preserves_color(tail, mid.record, mid.state);
    }
}

} // verus!

