use crate::filters::{
    lemma_ops_view, op_view, ops_view, regex_valid, Condition, Expression, LogView, Operation,
    Pattern, SpecCondition, SpecExpression, SpecOperation,
};
use vstd::prelude::*;
use vstd::string::StringExecFns;

verus! {

// ---------------------------------------------------------------------------
// A JSON tree, as the view adapter reads it: objects keep their key order,
// and scalar payloads other than strings play no role in a rule set, so
// they are not carried.
// ---------------------------------------------------------------------------
/// A JSON value.
pub enum JsonValue {
    Null,
    Bool(bool),
    Number,
    Str(String),
    Array(Vec<JsonValue>),
    Object(Vec<(String, JsonValue)>),
}

/// The model of a `JsonValue`.
pub enum SpecJson {
    Null,
    Bool(bool),
    Number,
    Str(Seq<char>),
    Array(Seq<SpecJson>),
    Object(Seq<(Seq<char>, SpecJson)>),
}

/// The model of a JSON value.
pub open spec fn json_view(j: JsonValue) -> SpecJson
    decreases j, 0int,
    via json_view_dec
{
    match j {
        JsonValue::Null => SpecJson::Null,
        JsonValue::Bool(b) => SpecJson::Bool(b),
        JsonValue::Number => SpecJson::Number,
        JsonValue::Str(s) => SpecJson::Str(s@),
        JsonValue::Array(l) => SpecJson::Array(json_list_view(l@)),
        JsonValue::Object(l) => SpecJson::Object(json_obj_view(l@)),
    }
}

/// The model of a JSON array's elements.
pub open spec fn json_list_view(l: Seq<JsonValue>) -> Seq<SpecJson>
    decreases l, 1int,
{
    if l.len() == 0 {
        Seq::empty()
    } else {
        seq![json_view(l[0])] + json_list_view(l.subrange(1, l.len() as int))
    }
}

/// The model of a JSON object's entries.
pub open spec fn json_obj_view(l: Seq<(String, JsonValue)>) -> Seq<(Seq<char>, SpecJson)>
    decreases l, 1int,
    via json_obj_view_dec
{
    if l.len() == 0 {
        Seq::empty()
    } else {
        seq![(l[0].0@, json_view(l[0].1))] + json_obj_view(l.subrange(1, l.len() as int))
    }
}

#[via_fn]
proof fn json_view_dec(j: JsonValue) {
    match j {
        JsonValue::Array(l) => {
            assert(j->Array_0 == l);
            assert(decreases_to!(j => j->Array_0));
            assert(decreases_to!(j->Array_0 => (j->Array_0)@));
            assert(decreases_to!(j => l@));
        },
        JsonValue::Object(l) => {
            assert(j->Object_0 == l);
            assert(decreases_to!(j => j->Object_0));
            assert(decreases_to!(j->Object_0 => (j->Object_0)@));
            assert(decreases_to!(j => l@));
        },
        _ => {},
    }
}

#[via_fn]
proof fn json_obj_view_dec(l: Seq<(String, JsonValue)>) {
    if l.len() > 0 {
        vstd::seq::axiom_seq_index_decreases(l, 0);
        assert(decreases_to!(l[0] => l[0].1));
        assert(decreases_to!(l => l[0].1));
    }
}

impl View for JsonValue {
    type V = SpecJson;

    open spec fn view(&self) -> SpecJson {
        json_view(*self)
    }
}

/// `json_list_view` maps the list element by element.
pub proof fn lemma_json_list_view(l: Seq<JsonValue>)
    ensures
        json_list_view(l).len() == l.len(),
        forall|i: int| 0 <= i < l.len() ==> json_list_view(l)[i] == json_view(l[i]),
    decreases l.len(),
{
    if l.len() > 0 {
        lemma_json_list_view(l.subrange(1, l.len() as int));
    }
}

/// `json_obj_view` maps the entries element by element.
pub proof fn lemma_json_obj_view(l: Seq<(String, JsonValue)>)
    ensures
        json_obj_view(l).len() == l.len(),
        forall|i: int| 0 <= i < l.len() ==> json_obj_view(l)[i] == (l[i].0@, json_view(l[i].1)),
    decreases l.len(),
{
    if l.len() > 0 {
        lemma_json_obj_view(l.subrange(1, l.len() as int));
    }
}

// ---------------------------------------------------------------------------
// A size measure on JSON trees, used for termination of the parser.
// ---------------------------------------------------------------------------
/// The number of nodes of a JSON value.
pub open spec fn json_size(j: SpecJson) -> nat
    decreases j, 0int,
{
    match j {
        SpecJson::Array(l) => 1 + json_list_size(l),
        SpecJson::Object(l) => 1 + json_obj_size(l),
        _ => 1,
    }
}

/// The number of nodes of a JSON array's elements, together.
pub open spec fn json_list_size(l: Seq<SpecJson>) -> nat
    decreases l, 1int,
{
    if l.len() == 0 {
        0
    } else {
        json_size(l[0]) + json_list_size(l.subrange(1, l.len() as int))
    }
}

/// The number of nodes of a JSON object's entry values, together.
pub open spec fn json_obj_size(l: Seq<(Seq<char>, SpecJson)>) -> nat
    decreases l, 1int,
    via json_obj_size_dec
{
    if l.len() == 0 {
        0
    } else {
        json_size(l[0].1) + json_obj_size(l.subrange(1, l.len() as int))
    }
}

#[via_fn]
proof fn json_obj_size_dec(l: Seq<(Seq<char>, SpecJson)>) {
    if l.len() > 0 {
        vstd::seq::axiom_seq_index_decreases(l, 0);
        assert(decreases_to!(l[0] => l[0].1));
        assert(decreases_to!(l => l[0].1));
    }
}

/// Every JSON value has at least one node.
pub proof fn lemma_json_size_pos(j: SpecJson)
    ensures
        json_size(j) >= 1,
{
}

/// An element's size is bounded by its array's size.
pub proof fn lemma_list_elem_size(l: Seq<SpecJson>, i: int)
    requires
        0 <= i < l.len(),
    ensures
        json_size(l[i]) <= json_list_size(l),
    decreases l.len(),
{
    if i > 0 {
        lemma_list_elem_size(l.subrange(1, l.len() as int), i - 1);
    }
}

/// An entry value's size is bounded by its object's size.
pub proof fn lemma_obj_elem_size(l: Seq<(Seq<char>, SpecJson)>, i: int)
    requires
        0 <= i < l.len(),
    ensures
        json_size(l[i].1) <= json_obj_size(l),
    decreases l.len(),
{
    if i > 0 {
        lemma_obj_elem_size(l.subrange(1, l.len() as int), i - 1);
    }
}

// ---------------------------------------------------------------------------
// Object lookup: the first entry with the wanted key, as the adapter reads
// objects whose keys are unique.
// ---------------------------------------------------------------------------
/// The value of the first entry of `obj` whose key is `key`, if any.
pub open spec fn spec_obj_get(obj: Seq<(Seq<char>, SpecJson)>, key: Seq<char>) -> Option<SpecJson>
    decreases obj.len(),
{
    if obj.len() == 0 {
        None
    } else if obj[0].0 == key {
        Some(obj[0].1)
    } else {
        spec_obj_get(obj.subrange(1, obj.len() as int), key)
    }
}

/// A found value's size is bounded by its object's size.
pub proof fn lemma_obj_get_size(obj: Seq<(Seq<char>, SpecJson)>, key: Seq<char>)
    ensures
        spec_obj_get(obj, key) matches Some(v) ==> json_size(v) <= json_obj_size(obj),
    decreases obj.len(),
{
    if obj.len() > 0 && obj[0].0 != key {
        lemma_obj_get_size(obj.subrange(1, obj.len() as int), key);
    }
}

/// Whether every key of `obj` is `k1`.
pub open spec fn obj_keys_in1(obj: Seq<(Seq<char>, SpecJson)>, k1: Seq<char>) -> bool {
    forall|i: int| 0 <= i < obj.len() ==> (#[trigger] obj[i]).0 == k1
}

/// Whether every key of `obj` is `k1` or `k2`.
pub open spec fn obj_keys_in2(
    obj: Seq<(Seq<char>, SpecJson)>,
    k1: Seq<char>,
    k2: Seq<char>,
) -> bool {
    forall|i: int| 0 <= i < obj.len() ==> (#[trigger] obj[i]).0 == k1 || obj[i].0 == k2
}

/// Whether every key of `obj` is `k1`, `k2` or `k3`.
pub open spec fn obj_keys_in3(
    obj: Seq<(Seq<char>, SpecJson)>,
    k1: Seq<char>,
    k2: Seq<char>,
    k3: Seq<char>,
) -> bool {
    forall|i: int|
        0 <= i < obj.len() ==> (#[trigger] obj[i]).0 == k1 || obj[i].0 == k2 || obj[i].0 == k3
}

// ---------------------------------------------------------------------------
// The wire format of a rule set, as a function from JSON trees to parsed
// operations or a parse error. Unknown keys, a wrong number of keys, or a
// wrongly-typed value are rejected with a descriptive message; an invalid
// pattern is rejected at this point too, so that loading fails before any
// record is processed.
// ---------------------------------------------------------------------------
/// Parses an expression from the entries of its single-key object.
pub open spec fn spec_read_expression(obj: Seq<(Seq<char>, SpecJson)>) -> Result<
    SpecExpression,
    Seq<char>,
> {
    if obj.len() != 1 {
        Err("Invalid expression"@)
    } else {
        let key = obj[0].0;
        let value = obj[0].1;
        if key == "record"@ {
            match value {
                SpecJson::Object(v) => if v.len() > 0 {
                    Err("Unexpected keys for record"@)
                } else {
                    Ok(SpecExpression::Record)
                },
                _ => Err("Expected object for record"@),
            }
        } else if key == "variable"@ {
            match value {
                SpecJson::Str(name) => Ok(SpecExpression::Var(name)),
                _ => Err("Expected string for variable"@),
            }
        } else if key == "lastVariableValue"@ {
            match value {
                SpecJson::Str(name) => Ok(SpecExpression::LastVarValue(name)),
                _ => Err("Expected string for lastVariableValue"@),
            }
        } else if key == "constant"@ {
            match value {
                SpecJson::Str(c) => Ok(SpecExpression::Constant(c)),
                _ => Err("Expected string for constant"@),
            }
        } else {
            Err("Unknown expression"@)
        }
    }
}

/// Parses the condition of a conditional from the entries of the `if`
/// object.
pub open spec fn spec_read_condition(value: Seq<(Seq<char>, SpecJson)>) -> Result<
    SpecCondition,
    Seq<char>,
> {
    match spec_obj_get(value, "match"@) {
        None => Err("Unknown condition for If"@),
        Some(mj) => match mj {
            SpecJson::Object(m) => match spec_obj_get(m, "expression"@) {
                Some(SpecJson::Object(e)) => match spec_read_expression(e) {
                    Ok(expression) => match spec_obj_get(m, "pattern"@) {
                        Some(SpecJson::Str(p)) => if !regex_valid(p) {
                            Err("Invalid regex"@)
                        } else if !obj_keys_in2(m, "expression"@, "pattern"@) {
                            Err("Unexpected keys in match"@)
                        } else {
                            Ok(SpecCondition::Match { expression, pattern: p })
                        },
                        Some(_) => Err("Expected string for pattern"@),
                        None => Err("Missing pattern in match"@),
                    },
                    Err(e) => Err(e),
                },
                _ => Err("Expected object expression in match"@),
            },
            _ => Err("Expected object for match"@),
        },
    }
}

/// Parses one operation from a JSON value.
pub open spec fn spec_read_operation(j: SpecJson) -> Result<SpecOperation, Seq<char>>
    decreases json_size(j), 0int,
    via spec_read_operation_dec
{
    match j {
        SpecJson::Object(obj) => {
            if obj.len() != 1 {
                Err("Invalid operation"@)
            } else {
                let key = obj[0].0;
                match obj[0].1 {
                    SpecJson::Object(value) => {
                        if key == "if"@ {
                            match spec_read_condition(value) {
                                Err(e) => Err(e),
                                Ok(condition) => {
                                    let then_res = match spec_obj_get(value, "then"@) {
                                        None => Ok(Seq::<SpecOperation>::empty()),
                                        Some(SpecJson::Array(l)) => spec_read_operations(l),
                                        Some(_) => Err("Expected array for then operations"@),
                                    };
                                    match then_res {
                                        Err(e) => Err(e),
                                        Ok(then_ops) => {
                                            let else_res = match spec_obj_get(value, "else"@) {
                                                None => Ok(Seq::<SpecOperation>::empty()),
                                                Some(SpecJson::Array(l)) => spec_read_operations(
                                                    l,
                                                ),
                                                Some(_) => Err(
                                                    "Expected array for else operations"@,
                                                ),
                                            };
                                            match else_res {
                                                Err(e) => Err(e),
                                                Ok(else_ops) => if !obj_keys_in3(
                                                    value,
                                                    "match"@,
                                                    "then"@,
                                                    "else"@,
                                                ) {
                                                    Err("Unexpected keys in set"@)
                                                } else {
                                                    Ok(
                                                        SpecOperation::If {
                                                            condition,
                                                            then_ops,
                                                            else_ops,
                                                        },
                                                    )
                                                },
                                            }
                                        },
                                    }
                                },
                            }
                        } else if key == "set"@ {
                            match spec_obj_get(value, "target"@) {
                                Some(SpecJson::Str(target)) => {
                                    let expr_res = match spec_obj_get(value, "expression"@) {
                                        Some(SpecJson::Object(v)) => spec_read_expression(v),
                                        Some(_) => Err("Expected object expression for set"@),
                                        None => Ok(SpecExpression::Constant(Seq::empty())),
                                    };
                                    match expr_res {
                                        Err(e) => Err(e),
                                        Ok(expression) => if !obj_keys_in2(
                                            value,
                                            "target"@,
                                            "expression"@,
                                        ) {
                                            Err("Unexpected keys in set"@)
                                        } else {
                                            Ok(SpecOperation::SetVar { target, expression })
                                        },
                                    }
                                },
                                _ => Err("Expected string target for set"@),
                            }
                        } else if key == "colorBy"@ {
                            match spec_read_expression(value) {
                                Ok(expression) => Ok(SpecOperation::ColorBy(expression)),
                                Err(e) => Err(e),
                            }
                        } else if key == "skip"@ {
                            if value.len() > 0 {
                                Err("Unexpected keys for skip"@)
                            } else {
                                Ok(SpecOperation::SkipRecord)
                            }
                        } else {
                            Err("Unknown operation"@)
                        }
                    },
                    _ => Err("Expected object"@),
                }
            }
        },
        _ => Err("Expected object"@),
    }
}

/// Parses a list of operations from the elements of a JSON array, stopping
/// at the first failure.
pub open spec fn spec_read_operations(arr: Seq<SpecJson>) -> Result<Seq<SpecOperation>, Seq<char>>
    decreases json_list_size(arr), 1int,
    via spec_read_operations_dec
{
    if arr.len() == 0 {
        Ok(Seq::empty())
    } else {
        match spec_read_operation(arr[0]) {
            Ok(op) => match spec_read_operations(arr.subrange(1, arr.len() as int)) {
                Ok(rest) => Ok(seq![op] + rest),
                Err(e) => Err(e),
            },
            Err(e) => Err(e),
        }
    }
}

#[via_fn]
proof fn spec_read_operation_dec(j: SpecJson) {
    match j {
        SpecJson::Object(obj) => {
            if obj.len() == 1 {
                match obj[0].1 {
                    SpecJson::Object(value) => {
                        lemma_obj_elem_size(obj, 0);
                        assert forall|l: Seq<SpecJson>|
                            (spec_obj_get(value, "then"@) == Some(SpecJson::Array(l))
                                || spec_obj_get(value, "else"@) == Some(
                                SpecJson::Array(l),
                            )) implies #[trigger] json_list_size(l) < json_size(j) by {
                            lemma_obj_get_size(value, "then"@);
                            lemma_obj_get_size(value, "else"@);
                        }
                    },
                    _ => {},
                }
            }
        },
        _ => {},
    }
}

#[via_fn]
proof fn spec_read_operations_dec(arr: Seq<SpecJson>) {
    if arr.len() > 0 {
        lemma_list_elem_size(arr, 0);
        lemma_json_size_pos(arr[0]);
    }
}

/// Parses a whole rule set from a JSON value: an object whose only key is
/// `operations`, an array of operations.
pub open spec fn spec_read_view(j: SpecJson) -> Result<Seq<SpecOperation>, Seq<char>> {
    match j {
        SpecJson::Object(obj) => if !obj_keys_in1(obj, "operations"@) {
            Err("Unexpected keys"@)
        } else {
            match spec_obj_get(obj, "operations"@) {
                Some(SpecJson::Array(l)) => spec_read_operations(l),
                Some(_) => Err("Expected array"@),
                None => Err("Expected key \"operations\""@),
            }
        },
        _ => Err("Expected object"@),
    }
}

// ---------------------------------------------------------------------------
// The executable adapter, pinned to the functions above.
// ---------------------------------------------------------------------------
fn str_eq(a: &String, b: &str) -> (r: bool)
    ensures
        r == (a@ == b@),
{
    let bs = String::from_str(b);
    *a == bs
}

fn obj_get<'a>(obj: &'a Vec<(String, JsonValue)>, key: &str) -> (r: Option<&'a JsonValue>)
    ensures
        ({
            let so = spec_obj_get(json_obj_view(obj@), key@);
            match r {
                Some(v) => so == Some((*v)@),
                None => so is None,
            }
        }),
{
    let ghost so = json_obj_view(obj@);
    let n = obj.len();
    let mut i: usize = 0;
    proof {
        lemma_json_obj_view(obj@);
        assert(so.subrange(0, n as int) =~= so);
    }
    while i < n
        invariant
            n == obj.len(),
            i <= n,
            so == json_obj_view(obj@),
            so.len() == n,
            spec_obj_get(so, key@) == spec_obj_get(so.subrange(i as int, n as int), key@),
        decreases n - i,
    {
        proof {
            lemma_json_obj_view(obj@);
            assert(so.subrange(i as int, n as int)[0] == so[i as int]);
        }
        if str_eq(&obj[i].0, key) {
            return Some(&obj[i].1);
        }
        proof {
            assert(so.subrange(i as int, n as int).subrange(
                1,
                (n - i) as int,
            ) =~= so.subrange(i + 1, n as int));
        }
        i += 1;
    }
    proof {
        assert(so.subrange(n as int, n as int) =~= Seq::<(Seq<char>, SpecJson)>::empty());
    }
    None
}

fn keys_in1(obj: &Vec<(String, JsonValue)>, k1: &str) -> (r: bool)
    ensures
        r == obj_keys_in1(json_obj_view(obj@), k1@),
{
    let ghost so = json_obj_view(obj@);
    let n = obj.len();
    let mut i: usize = 0;
    proof {
        lemma_json_obj_view(obj@);
    }
    while i < n
        invariant
            n == obj.len(),
            i <= n,
            so == json_obj_view(obj@),
            so.len() == n,
            forall|j: int| 0 <= j < i ==> (#[trigger] so[j]).0 == k1@,
        decreases n - i,
    {
        proof {
            lemma_json_obj_view(obj@);
        }
        if !str_eq(&obj[i].0, k1) {
            proof {
                assert(so[i as int].0 != k1@);
            }
            return false;
        }
        i += 1;
    }
    true
}

fn keys_in2(obj: &Vec<(String, JsonValue)>, k1: &str, k2: &str) -> (r: bool)
    ensures
        r == obj_keys_in2(json_obj_view(obj@), k1@, k2@),
{
    let ghost so = json_obj_view(obj@);
    let n = obj.len();
    let mut i: usize = 0;
    proof {
        lemma_json_obj_view(obj@);
    }
    while i < n
        invariant
            n == obj.len(),
            i <= n,
            so == json_obj_view(obj@),
            so.len() == n,
            forall|j: int| 0 <= j < i ==> (#[trigger] so[j]).0 == k1@ || so[j].0 == k2@,
        decreases n - i,
    {
        proof {
            lemma_json_obj_view(obj@);
        }
        if !str_eq(&obj[i].0, k1) && !str_eq(&obj[i].0, k2) {
            proof {
                assert(so[i as int].0 != k1@ && so[i as int].0 != k2@);
            }
            return false;
        }
        i += 1;
    }
    true
}

fn keys_in3(obj: &Vec<(String, JsonValue)>, k1: &str, k2: &str, k3: &str) -> (r: bool)
    ensures
        r == obj_keys_in3(json_obj_view(obj@), k1@, k2@, k3@),
{
    let ghost so = json_obj_view(obj@);
    let n = obj.len();
    let mut i: usize = 0;
    proof {
        lemma_json_obj_view(obj@);
    }
    while i < n
        invariant
            n == obj.len(),
            i <= n,
            so == json_obj_view(obj@),
            so.len() == n,
            forall|j: int|
                0 <= j < i ==> (#[trigger] so[j]).0 == k1@ || so[j].0 == k2@ || so[j].0 == k3@,
        decreases n - i,
    {
        proof {
            lemma_json_obj_view(obj@);
        }
        if !str_eq(&obj[i].0, k1) && !str_eq(&obj[i].0, k2) && !str_eq(&obj[i].0, k3) {
            proof {
                assert(so[i as int].0 != k1@ && so[i as int].0 != k2@ && so[i as int].0 != k3@);
            }
            return false;
        }
        i += 1;
    }
    true
}

fn read_expression(json: &Vec<(String, JsonValue)>) -> (r: Result<Expression, &'static str>)
    ensures
        ({
            let s = spec_read_expression(json_obj_view(json@));
            match r {
                Ok(v) => s matches Ok(sv) && v@ == sv,
                Err(e) => s matches Err(m) && e@ == m,
            }
        }),
{
    proof {
        lemma_json_obj_view(json@);
    }
    if json.len() != 1 {
        return Err("Invalid expression");
    }
    let key = &json[0].0;
    let value = &json[0].1;
    if str_eq(key, "record") {
        match value {
            JsonValue::Object(v) => {
                proof {
                    lemma_json_obj_view(v@);
                }
                if v.len() > 0 {
                    Err("Unexpected keys for record")
                } else {
                    Ok(Expression::Record)
                }
            },
            _ => Err("Expected object for record"),
        }
    } else if str_eq(key, "variable") {
        match value {
            JsonValue::Str(name) => Ok(Expression::Var(name.clone())),
            _ => Err("Expected string for variable"),
        }
    } else if str_eq(key, "lastVariableValue") {
        match value {
            JsonValue::Str(name) => Ok(Expression::LastVarValue(name.clone())),
            _ => Err("Expected string for lastVariableValue"),
        }
    } else if str_eq(key, "constant") {
        match value {
            JsonValue::Str(c) => Ok(Expression::Constant(c.clone())),
            _ => Err("Expected string for constant"),
        }
    } else {
        Err("Unknown expression")
    }
}

fn read_condition(value: &Vec<(String, JsonValue)>) -> (r: Result<Condition, &'static str>)
    ensures
        ({
            let s = spec_read_condition(json_obj_view(value@));
            match r {
                Ok(c) => s matches Ok(sc) && c@ == sc,
                Err(e) => s matches Err(m) && e@ == m,
            }
        }),
{
    let m = match obj_get(value, "match") {
        None => {
            return Err("Unknown condition for If");
        },
        Some(mj) => match mj {
            JsonValue::Object(m) => m,
            _ => {
                return Err("Expected object for match");
            },
        },
    };
    let expression = match obj_get(m, "expression") {
        Some(ej) => match ej {
            JsonValue::Object(e) => match read_expression(e) {
                Ok(x) => x,
                Err(er) => {
                    return Err(er);
                },
            },
            _ => {
                return Err("Expected object expression in match");
            },
        },
        None => {
            return Err("Expected object expression in match");
        },
    };
    let pattern = match obj_get(m, "pattern") {
        Some(pj) => match pj {
            JsonValue::Str(p) => match Pattern::try_new(p.clone()) {
                Some(pat) => pat,
                None => {
                    return Err("Invalid regex");
                },
            },
            _ => {
                return Err("Expected string for pattern");
            },
        },
        None => {
            return Err("Missing pattern in match");
        },
    };
    if !keys_in2(m, "expression", "pattern") {
        return Err("Unexpected keys in match");
    }
    Ok(Condition::Match { expression, pattern })
}

/// `json_list_size(l) < json_size(jv)` for an array found under a key of
/// the single entry value of `jv`.
proof fn lemma_nested_array_size(
    jv: SpecJson,
    obj: Seq<(Seq<char>, SpecJson)>,
    value: Seq<(Seq<char>, SpecJson)>,
    key: Seq<char>,
    l: Seq<SpecJson>,
)
    requires
        jv == SpecJson::Object(obj),
        0 < obj.len(),
        obj[0].1 == SpecJson::Object(value),
        spec_obj_get(value, key) == Some(SpecJson::Array(l)),
    ensures
        json_list_size(l) < json_size(jv),
{
    lemma_obj_get_size(value, key);
    lemma_obj_elem_size(obj, 0);
}

fn read_operation(json: &JsonValue) -> (r: Result<Operation, &'static str>)
    ensures
        ({
            let s = spec_read_operation(json@);
            match r {
                Ok(v) => s matches Ok(so) && v@ == so,
                Err(e) => s matches Err(m) && e@ == m,
            }
        }),
    decreases json_size(json_view(*json)), 0int,
{
    let obj = match json {
        JsonValue::Object(v) => v,
        _ => {
            return Err("Expected object");
        },
    };
    proof {
        lemma_json_obj_view(obj@);
    }
    if obj.len() != 1 {
        return Err("Invalid operation");
    }
    let key = &obj[0].0;
    let value = match &obj[0].1 {
        JsonValue::Object(v) => v,
        _ => {
            return Err("Expected object");
        },
    };
    if str_eq(key, "if") {
        let condition = match read_condition(value) {
            Ok(c) => c,
            Err(e) => {
                return Err(e);
            },
        };
        let then_ops: Vec<Operation> = match obj_get(value, "then") {
            None => Vec::new(),
            Some(tj) => match tj {
                JsonValue::Array(l) => {
                    proof {
                        lemma_nested_array_size(
                            json@,
                            json_obj_view(obj@),
                            json_obj_view(value@),
                            "then"@,
                            json_list_view(l@),
                        );
                    }
                    match read_operations(l) {
                        Ok(v) => v,
                        Err(e) => {
                            return Err(e);
                        },
                    }
                },
                _ => {
                    return Err("Expected array for then operations");
                },
            },
        };
        let else_ops: Vec<Operation> = match obj_get(value, "else") {
            None => Vec::new(),
            Some(ej) => match ej {
                JsonValue::Array(l) => {
                    proof {
                        lemma_nested_array_size(
                            json@,
                            json_obj_view(obj@),
                            json_obj_view(value@),
                            "else"@,
                            json_list_view(l@),
                        );
                    }
                    match read_operations(l) {
                        Ok(v) => v,
                        Err(e) => {
                            return Err(e);
                        },
                    }
                },
                _ => {
                    return Err("Expected array for else operations");
                },
            },
        };
        if !keys_in3(value, "match", "then", "else") {
            return Err("Unexpected keys in set");
        }
        Ok(Operation::If { condition, then_ops, else_ops })
    } else if str_eq(key, "set") {
        let target = match obj_get(value, "target") {
            Some(tj) => match tj {
                JsonValue::Str(name) => name.clone(),
                _ => {
                    return Err("Expected string target for set");
                },
            },
            None => {
                return Err("Expected string target for set");
            },
        };
        let expression = match obj_get(value, "expression") {
            Some(ej) => match ej {
                JsonValue::Object(v) => match read_expression(v) {
                    Ok(x) => x,
                    Err(e) => {
                        return Err(e);
                    },
                },
                _ => {
                    return Err("Expected object expression for set");
                },
            },
            None => Expression::Constant(String::new()),
        };
        if !keys_in2(value, "target", "expression") {
            return Err("Unexpected keys in set");
        }
        Ok(Operation::SetVar { target, expression })
    } else if str_eq(key, "colorBy") {
        match read_expression(value) {
            Ok(expression) => Ok(Operation::ColorBy(expression)),
            Err(e) => Err(e),
        }
    } else if str_eq(key, "skip") {
        proof {
            lemma_json_obj_view(value@);
        }
        if value.len() > 0 {
            Err("Unexpected keys for skip")
        } else {
            Ok(Operation::SkipRecord)
        }
    } else {
        Err("Unknown operation")
    }
}

fn read_operations(arr: &Vec<JsonValue>) -> (r: Result<Vec<Operation>, &'static str>)
    ensures
        ({
            let s = spec_read_operations(json_list_view(arr@));
            match r {
                Ok(v) => s matches Ok(ops) && ops_view(v@) == ops,
                Err(e) => s matches Err(m) && e@ == m,
            }
        }),
    decreases json_list_size(json_list_view(arr@)), 1int,
{
    let ghost la = json_list_view(arr@);
    let mut out: Vec<Operation> = Vec::new();
    let n = arr.len();
    let mut i: usize = 0;
    proof {
        lemma_json_list_view(arr@);
        lemma_ops_view(out@);
        assert(la.subrange(0, n as int) =~= la);
        assert(ops_view(out@) =~= Seq::<SpecOperation>::empty());
    }
    while i < n
        invariant
            n == arr.len(),
            i <= n,
            la == json_list_view(arr@),
            la.len() == n,
            spec_read_operations(la) == (match spec_read_operations(
                la.subrange(i as int, n as int),
            ) {
                Ok(rest) => Ok::<Seq<SpecOperation>, Seq<char>>(ops_view(out@) + rest),
                Err(e) => Err::<Seq<SpecOperation>, Seq<char>>(e),
            }),
        decreases n - i,
    {
        proof {
            lemma_json_list_view(arr@);
            assert(la.subrange(i as int, n as int)[0] == la[i as int]);
            lemma_list_elem_size(la, i as int);
        }
        match read_operation(&arr[i]) {
            Ok(op) => {
                let ghost prev = out@;
                out.push(op);
                proof {
                    lemma_ops_view(prev);
                    lemma_ops_view(out@);
                    assert(ops_view(out@) =~= ops_view(prev) + seq![op_view(op)]);
                    assert(la.subrange(i as int, n as int).subrange(
                        1,
                        (n - i) as int,
                    ) =~= la.subrange(i + 1, n as int));
                    match spec_read_operations(la.subrange(i + 1, n as int)) {
                        Ok(rest) => {
                            assert(ops_view(prev) + (seq![op_view(op)] + rest) =~= ops_view(out@)
                                + rest);
                        },
                        Err(_) => {},
                    }
                }
            },
            Err(e) => {
                return Err(e);
            },
        }
        i += 1;
    }
    proof {
        assert(la.subrange(n as int, n as int) =~= Seq::<SpecJson>::empty());
        assert(ops_view(out@) + Seq::<SpecOperation>::empty() =~= ops_view(out@));
    }
    Ok(out)
}

/// Parses a whole rule set from a JSON value, exactly as `spec_read_view`
/// says: the parsed rule set on a well-formed tree, the matching error
/// message otherwise.
pub fn read_view(json: &JsonValue) -> (r: Result<LogView, &'static str>)
    ensures
        ({
            let s = spec_read_view(json@);
            match r {
                Ok(v) => s matches Ok(ops) && v@ == ops,
                Err(e) => s matches Err(m) && e@ == m,
            }
        }),
{
    let obj = match json {
        JsonValue::Object(v) => v,
        _ => {
            return Err("Expected object");
        },
    };
    if !keys_in1(obj, "operations") {
        return Err("Unexpected keys");
    }
    match obj_get(obj, "operations") {
        Some(oj) => match oj {
            JsonValue::Array(l) => match read_operations(l) {
                Ok(operations) => Ok(LogView { operations }),
                Err(e) => Err(e),
            },
            _ => Err("Expected array"),
        },
        None => Err("Expected key \"operations\""),
    }
}

} // verus!
