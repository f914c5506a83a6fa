use crate::varmap::VarMap;
use vstd::prelude::*;
use vstd::string::StringExecFns;

verus! {

// ---------------------------------------------------------------------------
// The regular-expression layer.
//
// Compilation and matching are done by the regex crate; what they return is
// named by the three uninterpreted functions below, and the two wrappers
// state how the crate's calls relate to those names.
// ---------------------------------------------------------------------------
#[verifier::external_type_specification]
#[verifier::external_body]
pub struct ExRegex(regex::Regex);

/// Whether `regex::Regex::new` accepts `pattern`: a parseable expression
/// whose compiled form fits the crate's default size limit.
pub uninterp spec fn regex_valid(pattern: Seq<char>) -> bool;

/// The capture groups of the compiled form of `pattern`: one slot per group
/// in group order, holding the group's name, or `None` for an unnamed group.
/// Slot 0 stands for the implicit whole-match group and is always unnamed.
pub uninterp spec fn regex_group_names(pattern: Seq<char>) -> Seq<Option<Seq<char>>>;

/// What matching `pattern` against `text` yields: `None` when the expression
/// does not match, otherwise one slot per capture group, holding the text
/// the group captured, or `None` for a group that did not participate.
pub uninterp spec fn regex_captures(pattern: Seq<char>, text: Seq<char>) -> Option<
    Seq<Option<Seq<char>>>,
>;

/// Relies on `regex::Regex::new`, which returns a compiled expression
/// exactly when it accepts the pattern and an error otherwise, and on
/// `regex::Regex::capture_names`, which yields the name of each capture
/// group of the compiled expression, in group order, `None` for an unnamed
/// group.
#[verifier::external_body]
fn compile_regex(regex: &String) -> (r: Option<(regex::Regex, Vec<Option<String>>)>)
    ensures
        r is Some <==> regex_valid(regex@),
        r matches Some(p) ==> p.1.deep_view() == regex_group_names(regex@),
{
    match regex::Regex::new(regex) {
        Ok(compiled) => {
            let names = compiled.capture_names().map(|n| n.map(|s| s.to_owned())).collect();
            Some((compiled, names))
        },
        Err(_) => None,
    }
}

/// Relies on `regex::Regex::captures`: `None` exactly when the expression
/// does not match, otherwise one slot per capture group of the expression,
/// `None` where the group did not participate in the match. The fields of
/// `Pattern` are private and only `Pattern::new` builds one, so
/// `pattern.compiled` is always the compiled form of `pattern.regex`, and
/// the result is the one `regex_captures` names for that source; as
/// `Captures::iter` yields exactly one slot per group, the length equals
/// that of `regex_group_names`.
#[verifier::external_body]
fn find_captures(pattern: &Pattern, string: &String) -> (r: Option<Vec<Option<String>>>)
    ensures
        r is Some <==> regex_captures(pattern.source(), string@) is Some,
        r matches Some(c) ==> Some(c.deep_view()) == regex_captures(pattern.source(), string@),
        r matches Some(c) ==> c.deep_view().len() == regex_group_names(pattern.source()).len(),
{
    match pattern.compiled.captures(string) {
        Some(m) => Some(m.iter().map(|v| v.map(|g| g.as_str().to_owned())).collect()),
        None => None,
    }
}

// ---------------------------------------------------------------------------
// Pattern: a compiled regular expression plus its named capture groups.
// ---------------------------------------------------------------------------
/// The names of the named groups, in group order.
pub open spec fn named_of(names: Seq<Option<Seq<char>>>) -> Seq<Seq<char>>
    decreases names.len(),
{
    if names.len() == 0 {
        Seq::empty()
    } else {
        named_of(names.drop_last()) + (match names.last() {
            Some(n) => seq![n],
            None => Seq::empty(),
        })
    }
}

/// The variable bindings a match produces: every named group that
/// participated in the match and captured non-empty text, bound to that
/// text. `names` and `caps` run in step, one slot per capture group.
pub open spec fn bindings_of(
    names: Seq<Option<Seq<char>>>,
    caps: Seq<Option<Seq<char>>>,
) -> Map<Seq<char>, Seq<char>>
    decreases names.len(),
{
    if names.len() == 0 || caps.len() == 0 {
        Map::empty()
    } else {
        let m = bindings_of(names.drop_last(), caps.drop_last());
        match (names.last(), caps.last()) {
            (Some(n), Some(v)) => if v.len() > 0 {
                m.insert(n, v)
            } else {
                m
            },
            _ => m,
        }
    }
}

/// What matching `pattern` against `text` binds: `None` when the expression
/// does not match, otherwise the bindings of the named groups.
pub open spec fn capture_map(pattern: Seq<char>, text: Seq<char>) -> Option<
    Map<Seq<char>, Seq<char>>,
> {
    match regex_captures(pattern, text) {
        Some(caps) => Some(bindings_of(regex_group_names(pattern), caps)),
        None => None,
    }
}

/// A regular expression compiled once and matched many times, together with
/// the list of named capture groups it defines.
#[derive(Debug)]
pub struct Pattern {
    regex: String,
    compiled: regex::Regex,
    groups: Vec<String>,
    all_groups: Vec<Option<String>>,
}

impl Pattern {
    /// The source text of the expression.
    pub closed spec fn source(&self) -> Seq<char> {
        self.regex@
    }

    #[verifier::type_invariant]
    spec fn wf(self) -> bool {
        &&& regex_valid(self.regex@)
        &&& self.all_groups.deep_view() == regex_group_names(self.regex@)
        &&& self.groups.deep_view() == named_of(regex_group_names(self.regex@))
    }

    /// Compiles `regex`, or reports that it is not a valid expression.
    pub fn try_new(regex: String) -> (r: Option<Pattern>)
        ensures
            r is Some <==> regex_valid(regex@),
            r matches Some(p) ==> p.source() == regex@,
    {
        match compile_regex(&regex) {
            Some(_) => Some(Pattern::new(regex)),
            None => None,
        }
    }

    /// Compiles `regex`, which must be a valid expression.
    pub fn new(regex: String) -> (r: Pattern)
        requires
            regex_valid(regex@),
        ensures
            r.source() == regex@,
    {
        match compile_regex(&regex) {
            Some((compiled, all_groups)) => {
                let ghost names = regex_group_names(regex@);
                let mut groups: Vec<String> = Vec::new();
                let n = all_groups.len();
                let mut i: usize = 0;
                while i < n
                    invariant
                        n == all_groups.len(),
                        i <= n,
                        all_groups.deep_view() == names,
                        groups.deep_view() == named_of(names.take(i as int)),
                    decreases n - i,
                {
                    proof {
                        assert(names.take(i + 1).drop_last() =~= names.take(i as int));
                        assert(all_groups.deep_view()[i as int] == all_groups@[i as int].deep_view());
                    }
                    match &all_groups[i] {
                        Some(name) => {
                            groups.push(name.clone());
                            proof {
                                assert(groups.deep_view() =~= named_of(names.take(i + 1)));
                            }
                        },
                        None => {
                            proof {
                                assert(groups.deep_view() =~= named_of(names.take(i + 1)));
                            }
                        },
                    }
                    i += 1;
                }
                proof {
                    assert(names.take(n as int) =~= names);
                }
                Pattern { regex, compiled, groups, all_groups }
            },
            None => vstd::pervasive::unreached(),
        }
    }

    /// The source text of the expression, as written.
    pub fn regex(&self) -> (r: &String)
        ensures
            r@ == self.source(),
    {
        &self.regex
    }

    /// The named capture groups, in group order.
    pub fn groups(&self) -> (r: &Vec<String>)
        ensures
            r.deep_view() == named_of(regex_group_names(self.source())),
    {
        proof {
            use_type_invariant(self);
        }
        &self.groups
    }

    /// Matches the expression against `string`: `None` when it does not
    /// match, otherwise the captured bindings of the named groups.
    pub fn match_string(&self, string: &String) -> (r: Option<VarMap>)
        ensures
            r is Some <==> regex_captures(self.source(), string@) is Some,
            r matches Some(m) ==> Some(m@) == capture_map(self.source(), string@),
    {
        proof {
            use_type_invariant(self);
        }
        let ghost names = regex_group_names(self.source());
        match find_captures(self, string) {
            Some(caps) => {
                let ghost capsv = caps.deep_view();
                let mut map = VarMap::new();
                let n = caps.len();
                let mut i: usize = 0;
                while i < n
                    invariant
                        n == caps.len(),
                        i <= n,
                        caps.deep_view() == capsv,
                        capsv.len() == names.len(),
                        self.all_groups.deep_view() == names,
                        n == self.all_groups.len(),
                        map@ == bindings_of(names.take(i as int), capsv.take(i as int)),
                    decreases n - i,
                {
                    proof {
                        assert(names.take(i + 1).drop_last() =~= names.take(i as int));
                        assert(capsv.take(i + 1).drop_last() =~= capsv.take(i as int));
                        assert(self.all_groups.deep_view()[i as int] == self.all_groups@[
                            i as int].deep_view());
                        assert(caps.deep_view()[i as int] == caps@[i as int].deep_view());
                    }
                    match (&self.all_groups[i], &caps[i]) {
                        (Some(name), Some(value)) => {
                            if !value.as_str().is_empty() {
                                map.insert(name.clone(), value.clone());
                            }
                        },
                        _ => {},
                    }
                    i += 1;
                }
                proof {
                    assert(names.take(n as int) =~= names);
                    assert(capsv.take(n as int) =~= capsv);
                }
                Some(map)
            },
            None => None,
        }
    }
}

// ---------------------------------------------------------------------------
// The rule language: expressions, conditions, operations, and the loaded
// rule set. Each type has a mathematical model built of sequences and maps.
// ---------------------------------------------------------------------------
/// A value source: the record's raw text, the current value of a variable,
/// the last value ever bound to a variable, or a literal constant.
#[derive(Debug)]
pub enum Expression {
    Record,
    Var(String),
    LastVarValue(String),
    Constant(String),
}

/// A testable condition: does an expression's value satisfy a pattern.
#[derive(Debug)]
pub enum Condition {
    Match { expression: Expression, pattern: Pattern },
}

/// One rule-language statement. Conditionals own ordered lists of child
/// operations, so operations form a tree.
#[derive(Debug)]
pub enum Operation {
    If { condition: Condition, then_ops: Vec<Operation>, else_ops: Vec<Operation> },
    SetVar { target: String, expression: Expression },
    ColorBy(Expression),
    SkipRecord,
}

/// A loaded, immutable rule set: an ordered list of top-level operations.
#[derive(Debug)]
pub struct LogView {
    pub operations: Vec<Operation>,
}

/// The model of an `Expression`.
pub enum SpecExpression {
    Record,
    Var(Seq<char>),
    LastVarValue(Seq<char>),
    Constant(Seq<char>),
}

/// The model of a `Condition`; the pattern is carried as its source text.
pub enum SpecCondition {
    Match { expression: SpecExpression, pattern: Seq<char> },
}

/// The model of an `Operation`.
pub enum SpecOperation {
    If { condition: SpecCondition, then_ops: Seq<SpecOperation>, else_ops: Seq<SpecOperation> },
    SetVar { target: Seq<char>, expression: SpecExpression },
    ColorBy(SpecExpression),
    SkipRecord,
}

impl View for Expression {
    type V = SpecExpression;

    open spec fn view(&self) -> SpecExpression {
        match self {
            Expression::Record => SpecExpression::Record,
            Expression::Var(name) => SpecExpression::Var(name@),
            Expression::LastVarValue(name) => SpecExpression::LastVarValue(name@),
            Expression::Constant(value) => SpecExpression::Constant(value@),
        }
    }
}

impl View for Condition {
    type V = SpecCondition;

    open spec fn view(&self) -> SpecCondition {
        match self {
            Condition::Match { expression, pattern } => SpecCondition::Match {
                expression: expression@,
                pattern: pattern.source(),
            },
        }
    }
}

/// The model of an operation tree.
pub open spec fn op_view(op: Operation) -> SpecOperation
    decreases op, 0int,
{
    match op {
        Operation::If { condition, then_ops, else_ops } => SpecOperation::If {
            condition: condition@,
            then_ops: ops_view(then_ops@),
            else_ops: ops_view(else_ops@),
        },
        Operation::SetVar { target, expression } => SpecOperation::SetVar {
            target: target@,
            expression: expression@,
        },
        Operation::ColorBy(expression) => SpecOperation::ColorBy(expression@),
        Operation::SkipRecord => SpecOperation::SkipRecord,
    }
}

/// The model of a list of operations.
pub open spec fn ops_view(ops: Seq<Operation>) -> Seq<SpecOperation>
    decreases ops, 1int,
{
    if ops.len() == 0 {
        Seq::empty()
    } else {
        seq![op_view(ops[0])] + ops_view(ops.subrange(1, ops.len() as int))
    }
}

/// `ops_view` maps the list element by element.
pub broadcast proof fn lemma_ops_view(ops: Seq<Operation>)
    ensures
        (#[trigger] ops_view(ops)).len() == ops.len(),
        forall|i: int| 0 <= i < ops.len() ==> ops_view(ops)[i] == op_view(ops[i]),
    decreases ops.len(),
{
    if ops.len() > 0 {
        lemma_ops_view(ops.subrange(1, ops.len() as int));
    }
}

impl View for Operation {
    type V = SpecOperation;

    open spec fn view(&self) -> SpecOperation {
        op_view(*self)
    }
}

impl View for LogView {
    type V = Seq<SpecOperation>;

    open spec fn view(&self) -> Seq<SpecOperation> {
        ops_view(self.operations@)
    }
}

// ---------------------------------------------------------------------------
// The pretty-printer: a diagnostic rendering of a rule set as indented
// pseudocode. Every rendering function appends to an output string and is
// pinned to a spec-level rendering of the models.
// ---------------------------------------------------------------------------
/// What the Debug formatting of a string yields: a quoted, escaped
/// rendering that depends on the characters alone.
pub uninterp spec fn debug_quoted(s: Seq<char>) -> Seq<char>;

/// Relies on the standard Debug formatting of `str` (through `format!`),
/// whose output is a function of the characters alone.
#[verifier::external_body]
fn quote_string(s: &String) -> (r: String)
    ensures
        r@ == debug_quoted(s@),
{
    format!("{:?}", s)
}

/// `indent` levels of two-space indentation.
pub open spec fn indent_seq(indent: nat) -> Seq<char>
    decreases indent,
{
    if indent == 0 {
        Seq::empty()
    } else {
        indent_seq((indent - 1) as nat) + "  "@
    }
}

/// The rendering of an expression.
pub open spec fn render_expr(e: SpecExpression) -> Seq<char> {
    match e {
        SpecExpression::Record => "record"@,
        SpecExpression::Var(name) => "variable "@ + name,
        SpecExpression::LastVarValue(name) => "last value of variable "@ + name,
        SpecExpression::Constant(value) => debug_quoted(value),
    }
}

/// The rendering of a condition: the tested expression and the pattern.
pub open spec fn render_cond(c: SpecCondition) -> Seq<char> {
    match c {
        SpecCondition::Match { expression, pattern } => render_expr(expression) + " match \""@
            + pattern + "\""@,
    }
}

/// The rendering of a then-branch: its operations one level deeper, or a
/// literal `NOTHING` line when the branch is empty.
pub open spec fn render_then(then_ops: Seq<SpecOperation>, prefix: Seq<char>) -> Seq<char>
    decreases then_ops, 3int,
{
    if then_ops.len() == 0 {
        prefix + "  "@ + "NOTHING\n"@
    } else {
        render_ops(then_ops, prefix + "  "@)
    }
}

/// The rendering of a conditional from its condition on: condition, then-
/// branch, else-branch. A sole nested conditional in the else-branch is
/// collapsed into an `ELIF` continuation; any other non-empty else-branch
/// becomes a literal `ELSE` block.
pub open spec fn render_if_branch(op: SpecOperation, prefix: Seq<char>) -> Seq<char>
    decreases op, 0int,
{
    match op {
        SpecOperation::If { condition, then_ops, else_ops } => render_cond(condition) + "\n"@
            + render_then(then_ops, prefix) + (if else_ops.len() == 1 && else_ops[0] is If {
            prefix + "ELIF "@ + render_if_branch(else_ops[0], prefix)
        } else if else_ops.len() > 0 {
            prefix + "ELSE\n"@ + render_ops(else_ops, prefix + "  "@)
        } else {
            Seq::empty()
        }),
        _ => Seq::empty(),
    }
}

/// The rendering of one operation, one line per statement, conditionals
/// with their branches below them.
pub open spec fn render_op(op: SpecOperation, prefix: Seq<char>) -> Seq<char>
    decreases op, 1int,
{
    match op {
        SpecOperation::If { .. } => prefix + "IF "@ + render_if_branch(op, prefix),
        SpecOperation::SetVar { target, expression } => prefix + "SET "@ + target + " = "@
            + render_expr(expression) + "\n"@,
        SpecOperation::ColorBy(expression) => prefix + "COLOR-BY "@ + render_expr(expression)
            + "\n"@,
        SpecOperation::SkipRecord => prefix + "SKIP\n"@,
    }
}

/// The rendering of a list of operations, in order.
pub open spec fn render_ops(ops: Seq<SpecOperation>, prefix: Seq<char>) -> Seq<char>
    decreases ops, 2int,
{
    if ops.len() == 0 {
        Seq::empty()
    } else {
        render_ops(ops.drop_last(), prefix) + render_op(ops.last(), prefix)
    }
}

/// ELIF-collapsing: when the else-branch of a conditional is exactly one
/// nested conditional, the conditional renders with an `ELIF` continuation
/// of the enclosing conditional, never as an `ELSE` block around a nested
/// `IF` line.
pub proof fn lemma_elif_collapse(
    condition: SpecCondition,
    then_ops: Seq<SpecOperation>,
    else_ops: Seq<SpecOperation>,
    prefix: Seq<char>,
)
    requires
        else_ops.len() == 1,
        else_ops[0] is If,
    ensures
        render_if_branch(SpecOperation::If { condition, then_ops, else_ops }, prefix)
            == render_cond(condition) + "\n"@ + render_then(then_ops, prefix) + prefix + "ELIF "@
            + render_if_branch(else_ops[0], prefix),
{
    assert(render_cond(condition) + "\n"@ + render_then(then_ops, prefix) + (prefix + "ELIF "@
        + render_if_branch(else_ops[0], prefix)) =~= render_cond(condition) + "\n"@ + render_then(
        then_ops,
        prefix,
    ) + prefix + "ELIF "@ + render_if_branch(else_ops[0], prefix));
}

/// Appends `indent` levels of two-space indentation to `out`.
pub fn idt(out: &mut String, indent: usize)
    ensures
        final(out)@ == old(out)@ + indent_seq(indent as nat),
{
    let ghost out0 = out@;
    let mut i: usize = 0;
    proof {
        assert(out@ =~= out0 + indent_seq(0));
    }
    while i < indent
        invariant
            i <= indent,
            out@ == out0 + indent_seq(i as nat),
        decreases indent - i,
    {
        out.append("  ");
        proof {
            assert(out0 + indent_seq(i as nat) + "  "@ =~= out0 + indent_seq((i + 1) as nat));
        }
        i += 1;
    }
}

impl Expression {
    /// Appends the rendering of this expression to `out`.
    pub fn print(&self, out: &mut String)
        ensures
            final(out)@ == old(out)@ + render_expr(self@),
    {
        let ghost out0 = out@;
        match self {
            Expression::Record => {
                out.append("record");
            },
            Expression::Var(name) => {
                out.append("variable ");
                out.append(name.as_str());
                proof {
                    assert(out0 + "variable "@ + name@ =~= out0 + ("variable "@ + name@));
                }
            },
            Expression::LastVarValue(name) => {
                out.append("last value of variable ");
                out.append(name.as_str());
                proof {
                    assert(out0 + "last value of variable "@ + name@ =~= out0 + (
                    "last value of variable "@ + name@));
                }
            },
            Expression::Constant(value) => {
                let quoted = quote_string(value);
                out.append(quoted.as_str());
            },
        }
    }
}

impl Operation {
    /// Appends the rendering of a conditional from its condition on: the
    /// condition, the then-branch, and the else-branch, collapsing a sole
    /// nested conditional into an `ELIF` continuation.
    #[verifier::loop_isolation(false)]
    #[verifier::rlimit(100)]
    fn print_if_branch(&self, out: &mut String, prefix: &String)
        requires
            (*self) matches Operation::If { .. },
        ensures
            final(out)@ == old(out)@ + render_if_branch(op_view(*self), prefix@),
        decreases *self, 0int,
    {
        let ghost out0 = out@;
        match self {
            Operation::If { condition, then_ops, else_ops } => {
                let ghost head = render_cond(condition@) + "\n"@;
                match condition {
                    Condition::Match { expression, pattern } => {
                        expression.print(out);
                        out.append(" match \"");
                        out.append(pattern.regex().as_str());
                        out.append("\"");
                    },
                }
                out.append("\n");
                proof {
                    assert(out@ =~= out0 + head);
                }
                let mut deeper = prefix.clone();
                deeper.append("  ");
                let ghost thenv = ops_view(then_ops@);
                let ghost then_part = render_then(thenv, prefix@);
                proof {
                    lemma_ops_view(then_ops@);
                    lemma_ops_view(else_ops@);
                }
                let tn = then_ops.len();
                if tn == 0 {
                    out.append(deeper.as_str());
                    out.append("NOTHING\n");
                    proof {
                        assert(out@ =~= out0 + head + then_part);
                    }
                } else {
                    let mut k: usize = 0;
                    proof {
                        assert(thenv.take(0) =~= Seq::<SpecOperation>::empty());
                        assert(out@ + render_ops(thenv.take(0), deeper@) =~= out@);
                    }
                    while k < tn
                        invariant
                            tn == then_ops.len(),
                            k <= tn,
                            thenv == ops_view(then_ops@),
                            deeper@ == prefix@ + "  "@,
                            out@ == out0 + head + render_ops(thenv.take(k as int), deeper@),
                        decreases tn - k,
                    {
                        proof {
                            lemma_ops_view(then_ops@);
                            assert(*then_ops == (*self)->then_ops);
                            assert(decreases_to!(*self => (*self)->then_ops));
                            assert(decreases_to!((*self)->then_ops => ((*self)->then_ops)@));
                            vstd::seq::axiom_seq_index_decreases(((*self)->then_ops)@, k as int);
                            assert(decreases_to!(*self => then_ops@[k as int]));
                        }
                        then_ops[k].print_pref(out, &deeper);
                        proof {
                            assert(thenv.take(k + 1).drop_last() =~= thenv.take(k as int));
                            assert(thenv.take(k + 1).last() == op_view(then_ops@[k as int]));
                            assert(out0 + head + render_ops(thenv.take(k as int), deeper@)
                                + render_op(op_view(then_ops@[k as int]), deeper@) =~= out0 + head
                                + render_ops(thenv.take(k + 1), deeper@));
                        }
                        k += 1;
                    }
                    proof {
                        assert(thenv.take(tn as int) =~= thenv);
                        assert(out@ =~= out0 + head + then_part);
                    }
                }
                let ghost elsev = ops_view(else_ops@);
                let en = else_ops.len();
                let mut else_if = false;
                if en == 1 {
                    let is_if = match &else_ops[0] {
                        Operation::If { .. } => true,
                        _ => false,
                    };
                    if is_if {
                        out.append(prefix.as_str());
                        out.append("ELIF ");
                        proof {
                            lemma_ops_view(else_ops@);
                            assert(*else_ops == (*self)->else_ops);
                            assert(decreases_to!(*self => (*self)->else_ops));
                            assert(decreases_to!((*self)->else_ops => ((*self)->else_ops)@));
                            vstd::seq::axiom_seq_index_decreases(((*self)->else_ops)@, 0);
                            assert(decreases_to!(*self => else_ops@[0]));
                            assert(elsev[0] == op_view(else_ops@[0]));
                        }
                        else_ops[0].print_if_branch(out, prefix);
                        proof {
                            assert(out@ =~= out0 + head + then_part + (prefix@ + "ELIF "@
                                + render_if_branch(elsev[0], prefix@)));
                        }
                        else_if = true;
                    }
                }
                if en > 0 && !else_if {
                    out.append(prefix.as_str());
                    out.append("ELSE\n");
                    let mut k: usize = 0;
                    let ghost out1 = out@;
                    proof {
                        assert(elsev.take(0) =~= Seq::<SpecOperation>::empty());
                        assert(out1 + render_ops(elsev.take(0), deeper@) =~= out1);
                    }
                    while k < en
                        invariant
                            en == else_ops.len(),
                            k <= en,
                            elsev == ops_view(else_ops@),
                            deeper@ == prefix@ + "  "@,
                            out@ == out1 + render_ops(elsev.take(k as int), deeper@),
                        decreases en - k,
                    {
                        proof {
                            lemma_ops_view(else_ops@);
                            assert(*else_ops == (*self)->else_ops);
                            assert(decreases_to!(*self => (*self)->else_ops));
                            assert(decreases_to!((*self)->else_ops => ((*self)->else_ops)@));
                            vstd::seq::axiom_seq_index_decreases(((*self)->else_ops)@, k as int);
                            assert(decreases_to!(*self => else_ops@[k as int]));
                        }
                        else_ops[k].print_pref(out, &deeper);
                        proof {
                            assert(elsev.take(k + 1).drop_last() =~= elsev.take(k as int));
                            assert(elsev.take(k + 1).last() == op_view(else_ops@[k as int]));
                            assert(out1 + render_ops(elsev.take(k as int), deeper@) + render_op(
                                op_view(else_ops@[k as int]),
                                deeper@,
                            ) =~= out1 + render_ops(elsev.take(k + 1), deeper@));
                        }
                        k += 1;
                    }
                    proof {
                        assert(elsev.take(en as int) =~= elsev);
                        assert(out@ =~= out0 + head + then_part + (prefix@ + "ELSE\n"@
                            + render_ops(elsev, deeper@)));
                    }
                }
                proof {
                    if en == 0 {
                        assert(out@ =~= out0 + head + then_part + Seq::<char>::empty());
                    }
                }
            },
            _ => {
                proof {
                    assert(false);
                }
            },
        }
    }

    /// Appends the rendering of this operation at the given indentation
    /// prefix.
    fn print_pref(&self, out: &mut String, prefix: &String)
        ensures
            final(out)@ == old(out)@ + render_op(op_view(*self), prefix@),
        decreases *self, 1int,
    {
        let ghost out0 = out@;
        match self {
            Operation::If { .. } => {
                out.append(prefix.as_str());
                out.append("IF ");
                self.print_if_branch(out, prefix);
                proof {
                    assert(out@ =~= out0 + (prefix@ + "IF "@ + render_if_branch(
                        op_view(*self),
                        prefix@,
                    )));
                }
            },
            Operation::SetVar { target, expression } => {
                out.append(prefix.as_str());
                out.append("SET ");
                out.append(target.as_str());
                out.append(" = ");
                expression.print(out);
                out.append("\n");
                proof {
                    assert(out@ =~= out0 + (prefix@ + "SET "@ + target@ + " = "@ + render_expr(
                        expression@,
                    ) + "\n"@));
                }
            },
            Operation::ColorBy(expression) => {
                out.append(prefix.as_str());
                out.append("COLOR-BY ");
                expression.print(out);
                out.append("\n");
                proof {
                    assert(out@ =~= out0 + (prefix@ + "COLOR-BY "@ + render_expr(expression@)
                        + "\n"@));
                }
            },
            Operation::SkipRecord => {
                out.append(prefix.as_str());
                out.append("SKIP\n");
                proof {
                    assert(out@ =~= out0 + (prefix@ + "SKIP\n"@));
                }
            },
        }
    }

    /// Appends the rendering of this operation at `indent` levels of
    /// indentation.
    pub fn print(&self, out: &mut String, indent: usize)
        ensures
            final(out)@ == old(out)@ + render_op(self@, indent_seq(indent as nat)),
    {
        let mut prefix = String::new();
        idt(&mut prefix, indent);
        proof {
            assert(prefix@ =~= indent_seq(indent as nat));
        }
        self.print_pref(out, &prefix);
    }
}

impl LogView {
    /// Appends the rendering of every top-level operation, in order, at
    /// `indent` levels of indentation.
    pub fn print(&self, out: &mut String, indent: usize)
        ensures
            final(out)@ == old(out)@ + render_ops(self@, indent_seq(indent as nat)),
    {
        let ghost out0 = out@;
        let ghost allv = ops_view(self.operations@);
        let mut prefix = String::new();
        idt(&mut prefix, indent);
        proof {
            assert(prefix@ =~= indent_seq(indent as nat));
            assert(allv.take(0) =~= Seq::<SpecOperation>::empty());
            assert(out0 + render_ops(allv.take(0), prefix@) =~= out0);
        }
        let n = self.operations.len();
        let mut k: usize = 0;
        while k < n
            invariant
                n == self.operations.len(),
                k <= n,
                allv == ops_view(self.operations@),
                prefix@ == indent_seq(indent as nat),
                out@ == out0 + render_ops(allv.take(k as int), prefix@),
            decreases n - k,
        {
            proof {
                lemma_ops_view(self.operations@);
                assert(allv[k as int] == op_view(self.operations@[k as int]));
            }
            self.operations[k].print_pref(out, &prefix);
            proof {
                assert(allv.take(k + 1).drop_last() =~= allv.take(k as int));
                assert(allv.take(k + 1).last() == op_view(self.operations@[k as int]));
                assert(out0 + render_ops(allv.take(k as int), prefix@) + render_op(
                    op_view(self.operations@[k as int]),
                    prefix@,
                ) =~= out0 + render_ops(allv.take(k + 1), prefix@));
            }
            k += 1;
        }
        proof {
            lemma_ops_view(self.operations@);
            assert(allv.take(n as int) =~= allv);
        }
    }

    /// The whole rule set rendered as indented pseudocode, bracketed.
    pub fn debug_string(&self) -> (r: String)
        ensures
            r@ == "View [\n"@ + render_ops(self@, indent_seq(1)) + "]"@,
    {
        let mut out = String::new();
        out.append("View [\n");
        self.print(&mut out, 1);
        out.append("]");
        proof {
            assert(out@ =~= "View [\n"@ + render_ops(ops_view(self.operations@), indent_seq(1))
                + "]"@);
        }
        out
    }
}

} // verus!
