//! Running chip scripts: telling a script's missing optional hook apart from
//! a real scripting error.

use rhai::EvalAltResult;
use vstd::prelude::*;

verus! {

/// The scripting engine's error type, carried through unopened.
#[verifier::external_type_specification]
#[verifier::external_body]
pub struct ExEvalAltResult(EvalAltResult);

/// The function name that a scripting error reports as not found: the name
/// held by `EvalAltResult::ErrorFunctionNotFound`, and `None` for every other
/// kind of error.
pub uninterp spec fn function_not_found_name(error: EvalAltResult) -> Option<Seq<char>>;

/// `rhai::EvalAltResult::ErrorFunctionNotFound`'s function name, cloned, and
/// `None` for every other kind of error: the contract claims that the result is
/// `function_not_found_name` of the error.
#[verifier::external_body]
fn missing_function_of(error: &EvalAltResult) -> (r: Option<String>)
    ensures
        (match r {
            Some(s) => function_not_found_name(*error) == Some(s@),
            None => function_not_found_name(*error) is None,
        }),
{
    match error {
        EvalAltResult::ErrorFunctionNotFound(function, _) => Some(function.clone()),
        _ => None,
    }
}

/// Whether an error that reports the missing function `missing` (if any)
/// is about the optional hook `name`.
pub fn is_missing_hook(missing: &Option<String>, name: &str) -> (r: bool)
    ensures
        r == (missing matches Some(f) && f@ == name@),
{
    match missing {
        Some(function) => {
            let expected = name.to_owned();
            *function == expected
        },
        None => false,
    }
}

/// A scripting error, with the name of the missing function when the error
/// is that a called function does not exist.
pub struct ScriptError {
    pub missing_function: Option<String>,
    pub error: Box<EvalAltResult>,
}

/// The result of a script call with its error, if any, made a `ScriptError`.
pub fn script_result<T>(value: Result<T, Box<EvalAltResult>>) -> (r: Result<T, ScriptError>)
    ensures
        value is Ok ==> r == Ok::<T, ScriptError>(value->Ok_0),
        value is Err ==> (r matches Err(e) && e.error == value->Err_0 && match e.missing_function {
            Some(f) => function_not_found_name(*value->Err_0) == Some(f@),
            None => function_not_found_name(*value->Err_0) is None,
        }),
{
    match value {
        Ok(v) => Ok(v),
        Err(e) => {
            let missing_function = missing_function_of(&e);
            Err(ScriptError { missing_function, error: e })
        },
    }
}

/// The outcome of calling an optional script hook `name`: `None` when the
/// script does not define the hook, otherwise the call's own result.
pub fn map_optional_function_result<T>(value: Result<T, ScriptError>, name: &str) -> (r: Option<
    Result<T, ScriptError>,
>)
    ensures
        r is None <==> (value matches Err(e) && e.missing_function matches Some(f) && f@ == name@),
        r is Some ==> r == Some(value),
{
    match value {
        Ok(v) => Some(Ok(v)),
        Err(e) => {
            if is_missing_hook(&e.missing_function, name) {
                None
            } else {
                Some(Err(e))
            }
        },
    }
}

} // verus!
