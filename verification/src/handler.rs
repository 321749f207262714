//! What a route declaration attribute decides for the handler it is written
//! on: the checks on the handler's signature, and the values that the
//! generated mounting function and route declaration carry.

use vstd::prelude::*;
use crate::mapping::{normalize_path, normalized_path, ArgsView, MappingArgs};
use crate::text::{ascii_lower_text, is_ascii_text, lowercase, owned, push_char, push_str, str_eq, to_lowercase};

verus! {

broadcast use vstd::string::group_string_axioms;

/// The type of a handler parameter, as far as it matters here.
pub struct ParamType {
    /// A path type without a qualified self (`a::b::C`, not `<T as U>::C`).
    pub plain_path: bool,
    /// The identifier of the path's last segment.
    pub last_ident: Option<String>,
}

/// A parameter type as values.
pub struct ParamTypeView {
    pub plain_path: bool,
    pub last_ident: Option<Seq<char>>,
}

impl View for ParamType {
    type V = ParamTypeView;

    open spec fn view(&self) -> ParamTypeView {
        ParamTypeView {
            plain_path: self.plain_path,
            last_ident: match self.last_ident {
                Some(s) => Some(s@),
                None => None,
            },
        }
    }
}

/// A parameter of the handler.
pub enum FnInput {
    /// A `self` receiver.
    Receiver,
    /// A typed parameter.
    Typed(ParamType),
}

/// A handler parameter as values.
pub enum FnInputView {
    Receiver,
    Typed(ParamTypeView),
}

impl View for FnInput {
    type V = FnInputView;

    open spec fn view(&self) -> FnInputView {
        match self {
            FnInput::Receiver => FnInputView::Receiver,
            FnInput::Typed(t) => FnInputView::Typed(t@),
        }
    }
}

/// The signature of the handler a declaration attribute is written on.
pub struct HandlerSig {
    /// The handler's name.
    pub name: String,
    /// Declared `async`.
    pub is_async: bool,
    /// Declares generic parameters.
    pub has_generics: bool,
    /// The parameters, in order.
    pub inputs: Vec<FnInput>,
}

/// The views of the parameters.
pub open spec fn input_views(v: Seq<FnInput>) -> Seq<FnInputView> {
    v.map_values(|i: FnInput| i@)
}

/// Why a declaration attribute cannot be applied to a handler.
#[derive(Debug)]
pub enum ExpandError {
    /// The handler is not `async`; carries the lower-cased method.
    NotAsync { method_lower: String },
    /// The handler is generic.
    Generic,
    /// The handler takes `self`.
    Receiver,
}

/// The decisions for a handler: names and values of the generated code.
#[derive(Debug)]
pub struct HandlerPlan {
    /// The generated mounting function: `__hirust_attach_` and the handler's name.
    pub attach_name: String,
    /// The route factory: the lower-cased method (`get`, `post`, ...).
    pub route_factory: String,
    /// The normalised declared path (`/` when none is given).
    pub path: String,
    /// The declared tag; `None` gives the default, the module path, `::`
    /// and the handler's name.
    pub tag: Option<String>,
    /// The middleware names shown in the route table: each middleware
    /// path's source text without spaces.
    pub middleware_names: Vec<String>,
    /// For each parameter, whether it is the request itself (passed as a
    /// clone of the request after the middleware) rather than a value
    /// extracted from the request.
    pub request_params: Vec<bool>,
}

/// A plan as values.
pub struct PlanView {
    pub attach_name: Seq<char>,
    pub route_factory: Seq<char>,
    pub path: Seq<char>,
    pub tag: Option<Seq<char>>,
    pub middleware_names: Seq<Seq<char>>,
    pub request_params: Seq<bool>,
}

impl View for HandlerPlan {
    type V = PlanView;

    open spec fn view(&self) -> PlanView {
        PlanView {
            attach_name: self.attach_name@,
            route_factory: self.route_factory@,
            path: self.path@,
            tag: match self.tag {
                Some(t) => Some(t@),
                None => None,
            },
            middleware_names: self.middleware_names@.map_values(|s: String| s@),
            request_params: self.request_params@,
        }
    }
}

/// The type is the request type: a plain path whose last segment is
/// `HttpRequest` (as in `HttpRequest` or `actix_web::HttpRequest`).
pub open spec fn is_request_type(t: ParamTypeView) -> bool {
    t.plain_path && t.last_ident == Some("HttpRequest"@)
}

/// `s` without its spaces.
pub open spec fn without_spaces(s: Seq<char>) -> Seq<char>
    decreases s.len(),
{
    if s.len() == 0 {
        Seq::empty()
    } else {
        without_spaces(s.drop_last()) + (if s.last() == ' ' {
            Seq::<char>::empty()
        } else {
            seq![s.last()]
        })
    }
}

/// Whether a parameter is the request.
pub open spec fn request_flag(i: FnInputView) -> bool {
    match i {
        FnInputView::Typed(t) => is_request_type(t),
        FnInputView::Receiver => false,
    }
}

/// The plan for handler `name` with parameters `inputs`, declared for
/// `method` with arguments `a`.
pub open spec fn plan_of(method: Seq<char>, a: ArgsView, name: Seq<char>, inputs: Seq<FnInputView>) -> PlanView {
    PlanView {
        attach_name: "__hirust_attach_"@ + name,
        route_factory: lowercase(method),
        path: normalized_path(a.path),
        tag: a.tag,
        middleware_names: a.middleware.map_values(|m: Seq<char>| without_spaces(m)),
        request_params: inputs.map_values(|i: FnInputView| request_flag(i)),
    }
}

/// Whether the parameter type is the request type.
pub fn is_http_request_type(t: &ParamType) -> (r: bool)
    ensures
        r == is_request_type(t@),
{
    t.plain_path && match &t.last_ident {
        Some(s) => str_eq(s.as_str(), "HttpRequest"),
        None => false,
    }
}

/// `s` without its spaces.
fn strip_spaces(s: &str) -> (r: String)
    ensures
        r@ == without_spaces(s@),
{
    let cs = crate::text::chars_of(s);
    let mut r = String::new();
    let mut i: usize = 0;
    while i < cs.len()
        invariant
            i <= cs.len(),
            cs@ == s@,
            r@ == without_spaces(s@.take(i as int)),
        decreases cs.len() - i,
    {
        assert(s@.take(i + 1).drop_last() == s@.take(i as int));
        if cs[i] != ' ' {
            push_char(&mut r, cs[i]);
        }
        proof {
            assert(r@ =~= without_spaces(s@.take(i + 1)));
        }
        i = i + 1;
    }
    assert(s@.take(cs.len() as int) == s@);
    r
}

/// Checks the handler and decides the generated values: the handler must
/// be `async`, then not generic, then take no `self`.
pub fn handler_plan(method: &str, args: &MappingArgs, sig: &HandlerSig) -> (r: Result<HandlerPlan, ExpandError>)
    ensures
        is_ascii_text(method@) ==> lowercase(method@) == ascii_lower_text(method@),
        !sig.is_async ==> (r matches Err(ExpandError::NotAsync { method_lower }) && method_lower@ == lowercase(method@)),
        sig.is_async && sig.has_generics ==> r matches Err(ExpandError::Generic),
        sig.is_async && !sig.has_generics ==> (r matches Err(ExpandError::Receiver) <==> exists|k: int|
            0 <= k < sig.inputs.len() && #[trigger] input_views(sig.inputs@)[k] == FnInputView::Receiver),
        r matches Ok(p) ==> sig.is_async && !sig.has_generics && p@ == plan_of(
            method@,
            args@,
            sig.name@,
            input_views(sig.inputs@),
        ),
        sig.is_async && !sig.has_generics && !(exists|k: int|
            0 <= k < sig.inputs.len() && #[trigger] input_views(sig.inputs@)[k] == FnInputView::Receiver) ==> r is Ok,
{
    let method_lower = to_lowercase(method);
    if !sig.is_async {
        return Err(ExpandError::NotAsync { method_lower });
    }
    if sig.has_generics {
        return Err(ExpandError::Generic);
    }
    let ghost ins = input_views(sig.inputs@);
    let mut flags: Vec<bool> = Vec::new();
    let mut k: usize = 0;
    while k < sig.inputs.len()
        invariant
            k <= sig.inputs.len(),
            sig.is_async,
            !sig.has_generics,
            method_lower@ == lowercase(method@),
            is_ascii_text(method@) ==> method_lower@ == ascii_lower_text(method@),
            ins == input_views(sig.inputs@),
            flags@ == ins.take(k as int).map_values(|i: FnInputView| request_flag(i)),
            forall|j: int| 0 <= j < k ==> #[trigger] ins[j] != FnInputView::Receiver,
        decreases sig.inputs.len() - k,
    {
        assert(ins[k as int] == sig.inputs@[k as int]@);
        match &sig.inputs[k] {
            FnInput::Receiver => {
                assert(ins[k as int] == FnInputView::Receiver);
                return Err(ExpandError::Receiver);
            },
            FnInput::Typed(t) => {
                let f = is_http_request_type(t);
                flags.push(f);
                assert(flags@ =~= ins.take(k + 1).map_values(|i: FnInputView| request_flag(i)));
            },
        }
        k = k + 1;
    }
    assert(ins.take(sig.inputs.len() as int) == ins);
    let mut attach_name = owned("__hirust_attach_");
    push_str(&mut attach_name, sig.name.as_str());
    let mut names: Vec<String> = Vec::new();
    let mut j: usize = 0;
    while j < args.middleware.len()
        invariant
            j <= args.middleware.len(),
            names@.map_values(|s: String| s@) == args@.middleware.take(j as int).map_values(|m: Seq<char>| without_spaces(m)),
        decreases args.middleware.len() - j,
    {
        let n = strip_spaces(args.middleware[j].as_str());
        let ghost before = names@;
        names.push(n);
        proof {
            assert(names@.map_values(|s: String| s@) =~= before.map_values(|s: String| s@).push(n@));
            assert(args@.middleware[j as int] == args.middleware@[j as int]@);
            assert(args@.middleware.take(j + 1).map_values(|m: Seq<char>| without_spaces(m)) =~= args@.middleware.take(
                j as int,
            ).map_values(|m: Seq<char>| without_spaces(m)).push(without_spaces(args@.middleware[j as int])));
        }
        j = j + 1;
    }
    assert(args@.middleware.take(args.middleware.len() as int) == args@.middleware);
    let tag = match &args.tag {
        Some(t) => Some(t.clone()),
        None => None,
    };
    let plan = HandlerPlan {
        attach_name,
        route_factory: method_lower,
        path: normalize_path(args.path.as_str()),
        tag,
        middleware_names: names,
        request_params: flags,
    };
    assert(plan@.middleware_names =~= plan_of(method@, args@, sig.name@, ins).middleware_names);
    Ok(plan)
}

} // verus!
