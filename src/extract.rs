use vstd::prelude::*;

use crate::tree::{lemma_text_is_source_slice, SyntaxTree, TreeModel};
use crate::walk::{find_descendants, lemma_kind_matches_bounds};

verus! {

/// A named, typed parameter of a function.
pub struct Parameter {
    pub name: String,
    pub type_: String,
}

/// A function: its name, its parameters in order, and its return type,
/// which extraction leaves unset.
pub struct Function {
    pub name: String,
    pub parameters: Vec<Parameter>,
    pub returns: Option<String>,
}

/// An interface: its name and its functions in order.
pub struct Interface {
    pub name: String,
    pub functions: Vec<Function>,
}

/// What a world exports: a whole interface, or a single function.
pub enum WorldExport {
    Interface { interface: String },
    Function { function: String, parameters: Vec<Parameter>, returns: Option<String> },
}

/// A world: its name, its exports and its imports. Extraction produces none.
pub struct World {
    pub name: String,
    pub exports: Vec<WorldExport>,
    pub imports: Vec<String>,
}

/// The interfaces and worlds of one source file.
pub struct WitFile {
    pub interfaces: Vec<Interface>,
    pub worlds: Vec<World>,
}

/// Why a construct could not be extracted.
#[derive(Clone, Copy, Debug, PartialEq, Eq, Structural)]
pub enum ExtractionError {
    /// An interface or a function holds no identifier to name it.
    MissingName,
    /// A function holds no parameter list.
    MissingParameterList,
    /// A parameter list holds fewer types than parameter names.
    MismatchedParameters,
}

impl TreeModel {
    pub open spec fn identifiers(self, n: int) -> Seq<usize> {
        self.descendants_of_kind(n, "identifier"@)
    }

    pub open spec fn types(self, n: int) -> Seq<usize> {
        self.descendants_of_kind(n, "ty"@)
    }

    pub open spec fn param_lists(self, n: int) -> Seq<usize> {
        self.descendants_of_kind(n, "param_list"@)
    }

    pub open spec fn func_items(self, n: int) -> Seq<usize> {
        self.descendants_of_kind(n, "func_item"@)
    }

    pub open spec fn interface_items(self, n: int) -> Seq<usize> {
        self.descendants_of_kind(n, "interface_item"@)
    }

    /// The i-th identifier and the i-th type of a parameter list are paired;
    /// this needs a type for every identifier.
    pub open spec fn params_ok(self, pl: int) -> bool {
        self.types(pl).len() >= self.identifiers(pl).len()
    }

    /// `ps` pairs, in order, the texts of the identifiers of `pl` with the
    /// texts of its types.
    pub open spec fn params_match(self, pl: int, ps: Seq<Parameter>) -> bool {
        &&& ps.len() == self.identifiers(pl).len()
        &&& forall|k: int|
            0 <= k < ps.len() ==> (#[trigger] ps[k]).name@ == self.text(
                self.identifiers(pl)[k] as int,
            ) && ps[k].type_@ == self.text(self.types(pl)[k] as int)
    }

    /// The reason node `f` cannot be extracted as a function, if any.
    pub open spec fn function_error(self, f: int) -> Option<ExtractionError> {
        if self.identifiers(f).len() == 0 {
            Some(ExtractionError::MissingName)
        } else if self.param_lists(f).len() == 0 {
            Some(ExtractionError::MissingParameterList)
        } else if !self.params_ok(self.param_lists(f)[0] as int) {
            Some(ExtractionError::MismatchedParameters)
        } else {
            None
        }
    }

    /// `fun` is named by the first identifier of `f` and takes the parameters
    /// of its first parameter list.
    pub open spec fn function_match(self, f: int, fun: Function) -> bool {
        &&& fun.name@ == self.text(self.identifiers(f)[0] as int)
        &&& self.params_match(self.param_lists(f)[0] as int, fun.parameters@)
        &&& fun.returns is None
    }

    /// The first error among the functions `fs[0..n]`.
    pub open spec fn functions_error(self, fs: Seq<usize>, n: int) -> Option<ExtractionError>
        decreases n,
    {
        if n <= 0 {
            None
        } else {
            match self.functions_error(fs, n - 1) {
                Some(e) => Some(e),
                None => self.function_error(fs[n - 1] as int),
            }
        }
    }

    pub open spec fn interface_error(self, i: int) -> Option<ExtractionError> {
        if self.identifiers(i).len() == 0 {
            Some(ExtractionError::MissingName)
        } else {
            self.functions_error(self.func_items(i), self.func_items(i).len() as int)
        }
    }

    pub open spec fn interface_match(self, i: int, itf: Interface) -> bool {
        &&& itf.name@ == self.text(self.identifiers(i)[0] as int)
        &&& itf.functions.len() == self.func_items(i).len()
        &&& forall|k: int|
            0 <= k < itf.functions.len() ==> self.function_match(
                self.func_items(i)[k] as int,
                #[trigger] itf.functions@[k],
            )
    }

    /// The first error among the interfaces `is[0..n]`.
    pub open spec fn interfaces_error(self, is: Seq<usize>, n: int) -> Option<ExtractionError>
        decreases n,
    {
        if n <= 0 {
            None
        } else {
            match self.interfaces_error(is, n - 1) {
                Some(e) => Some(e),
                None => self.interface_error(is[n - 1] as int),
            }
        }
    }

    pub open spec fn file_error(self) -> Option<ExtractionError> {
        self.interfaces_error(self.interface_items(0), self.interface_items(0).len() as int)
    }

    pub open spec fn file_match(self, w: WitFile) -> bool {
        &&& w.interfaces.len() == self.interface_items(0).len()
        &&& forall|k: int|
            0 <= k < w.interfaces.len() ==> self.interface_match(
                self.interface_items(0)[k] as int,
                #[trigger] w.interfaces@[k],
            )
        &&& w.worlds.len() == 0
    }
}

/// The parameters of a parameter list: the i-th identifier below it named by
/// the text of the i-th type below it. Types beyond the identifiers are left
/// out; fewer types than identifiers is an error.
pub fn parse_parameter(tree: &SyntaxTree, param_node: usize) -> (r: Result<
    Vec<Parameter>,
    ExtractionError,
>)
    requires
        tree@.wf(),
        param_node < tree@.len(),
    ensures
        r is Ok <==> tree@.params_ok(param_node as int),
        r matches Ok(ps) ==> tree@.params_match(param_node as int, ps@),
        r matches Err(e) ==> e == ExtractionError::MismatchedParameters,
{
    let ghost t = tree@;
    let names = find_descendants(tree, param_node, "identifier");
    let types = find_descendants(tree, param_node, "ty");
    if types.len() < names.len() {
        return Err(ExtractionError::MismatchedParameters);
    }
    proof {
        lemma_kind_matches_bounds(t, "identifier"@, param_node as int, t.sub_end(param_node as int));
        lemma_kind_matches_bounds(t, "ty"@, param_node as int, t.sub_end(param_node as int));
        assert(t.sub_end(param_node as int) <= t.len());
    }
    let mut out: Vec<Parameter> = Vec::new();
    let mut k: usize = 0;
    while k < names.len()
        invariant
            t == tree@,
            t.wf(),
            param_node < t.len(),
            names@ == t.identifiers(param_node as int),
            types@ == t.types(param_node as int),
            names@.len() <= types@.len(),
            forall|j: int| 0 <= j < names@.len() ==> #[trigger] names@[j] < t.len(),
            forall|j: int| 0 <= j < types@.len() ==> #[trigger] types@[j] < t.len(),
            k <= names@.len(),
            out@.len() == k,
            forall|j: int|
                0 <= j < k ==> (#[trigger] out@[j]).name@ == t.text(names@[j] as int) && out@[j].type_@
                    == t.text(types@[j] as int),
        decreases names@.len() - k,
    {
        let name = tree.text(names[k]);
        let type_ = tree.text(types[k]);
        out.push(Parameter { name, type_ });
        k = k + 1;
    }
    Ok(out)
}

/// Once the functions `fs[0..k]` have an error, so have all longer prefixes.
proof fn lemma_functions_error_stays(t: TreeModel, fs: Seq<usize>, k: int, n: int)
    requires
        0 <= k <= n,
        t.functions_error(fs, k) is Some,
    ensures
        t.functions_error(fs, n) == t.functions_error(fs, k),
    decreases n - k,
{
    if n > k {
        lemma_functions_error_stays(t, fs, k, n - 1);
    }
}

/// Once the interfaces `is[0..k]` have an error, so have all longer prefixes.
proof fn lemma_interfaces_error_stays(t: TreeModel, is: Seq<usize>, k: int, n: int)
    requires
        0 <= k <= n,
        t.interfaces_error(is, k) is Some,
    ensures
        t.interfaces_error(is, n) == t.interfaces_error(is, k),
    decreases n - k,
{
    if n > k {
        lemma_interfaces_error_stays(t, is, k, n - 1);
    }
}

/// The function at `func_node`: named by its first identifier, with the
/// parameters of its first parameter list, and no return type.
pub fn parse_function(tree: &SyntaxTree, func_node: usize) -> (r: Result<Function, ExtractionError>)
    requires
        tree@.wf(),
        func_node < tree@.len(),
    ensures
        r is Ok <==> tree@.function_error(func_node as int) is None,
        r matches Err(e) ==> tree@.function_error(func_node as int) == Some(e),
        r matches Ok(fun) ==> tree@.function_match(func_node as int, fun),
{
    let ghost t = tree@;
    let ghost f = func_node as int;
    proof {
        lemma_kind_matches_bounds(t, "identifier"@, f, t.sub_end(f));
        lemma_kind_matches_bounds(t, "param_list"@, f, t.sub_end(f));
        assert(t.sub_end(f) <= t.len());
    }
    let names = find_descendants(tree, func_node, "identifier");
    if names.len() == 0 {
        return Err(ExtractionError::MissingName);
    }
    let lists = find_descendants(tree, func_node, "param_list");
    if lists.len() == 0 {
        return Err(ExtractionError::MissingParameterList);
    }
    let name = tree.text(names[0]);
    let parameters = match parse_parameter(tree, lists[0]) {
        Ok(ps) => ps,
        Err(e) => {
            return Err(e);
        },
    };
    Ok(Function { name, parameters, returns: None })
}

/// The interface at `interface_node`: named by its first identifier, with
/// every function below it in document order. Fails with the first error of
/// any of them.
pub fn parse_interface(tree: &SyntaxTree, interface_node: usize) -> (r: Result<
    Interface,
    ExtractionError,
>)
    requires
        tree@.wf(),
        interface_node < tree@.len(),
    ensures
        r is Ok <==> tree@.interface_error(interface_node as int) is None,
        r matches Err(e) ==> tree@.interface_error(interface_node as int) == Some(e),
        r matches Ok(itf) ==> tree@.interface_match(interface_node as int, itf),
{
    let ghost t = tree@;
    let ghost i = interface_node as int;
    proof {
        lemma_kind_matches_bounds(t, "identifier"@, i, t.sub_end(i));
        lemma_kind_matches_bounds(t, "func_item"@, i, t.sub_end(i));
        assert(t.sub_end(i) <= t.len());
    }
    let names = find_descendants(tree, interface_node, "identifier");
    if names.len() == 0 {
        return Err(ExtractionError::MissingName);
    }
    let name = tree.text(names[0]);
    let items = find_descendants(tree, interface_node, "func_item");
    let mut functions: Vec<Function> = Vec::new();
    let mut k: usize = 0;
    while k < items.len()
        invariant
            t == tree@,
            t.wf(),
            items@ == t.func_items(i),
            i == interface_node,
            t.identifiers(i).len() > 0,
            name@ == t.text(t.identifiers(i)[0] as int),
            forall|j: int| 0 <= j < items@.len() ==> #[trigger] items@[j] < t.len(),
            k <= items@.len(),
            t.functions_error(items@, k as int) is None,
            functions@.len() == k,
            forall|j: int|
                0 <= j < k ==> t.function_match(items@[j] as int, #[trigger] functions@[j]),
        decreases items@.len() - k,
    {
        match parse_function(tree, items[k]) {
            Ok(fun) => {
                functions.push(fun);
            },
            Err(e) => {
                proof {
                    assert(t.functions_error(items@, k + 1) == Some(e));
                    lemma_functions_error_stays(t, items@, k + 1, items@.len() as int);
                }
                return Err(e);
            },
        }
        k = k + 1;
    }
    Ok(Interface { name, functions })
}

impl WitFile {
    /// Every interface of the tree, in document order, with no worlds. Fails
    /// with the first error of any interface.
    pub fn from_tree(tree: &SyntaxTree) -> (r: Result<WitFile, ExtractionError>)
        requires
            tree@.wf(),
        ensures
            r is Ok <==> tree@.file_error() is None,
            r matches Err(e) ==> tree@.file_error() == Some(e),
            r matches Ok(w) ==> tree@.file_match(w),
    {
        let ghost t = tree@;
        proof {
            lemma_kind_matches_bounds(t, "interface_item"@, 0, t.sub_end(0));
        }
        let items = find_descendants(tree, tree.root(), "interface_item");
        let mut interfaces: Vec<Interface> = Vec::new();
        let mut k: usize = 0;
        while k < items.len()
            invariant
                t == tree@,
                t.wf(),
                items@ == t.interface_items(0),
                forall|j: int| 0 <= j < items@.len() ==> #[trigger] items@[j] < t.len(),
                k <= items@.len(),
                t.interfaces_error(items@, k as int) is None,
                interfaces@.len() == k,
                forall|j: int|
                    0 <= j < k ==> t.interface_match(items@[j] as int, #[trigger] interfaces@[j]),
            decreases items@.len() - k,
        {
            match parse_interface(tree, items[k]) {
                Ok(itf) => {
                    interfaces.push(itf);
                },
                Err(e) => {
                    proof {
                        assert(t.interfaces_error(items@, k + 1) == Some(e));
                        lemma_interfaces_error_stays(t, items@, k + 1, items@.len() as int);
                    }
                    return Err(e);
                },
            }
            k = k + 1;
        }
        Ok(WitFile { interfaces, worlds: Vec::new() })
    }
}

/// A node that spans at least one byte has non-empty text.
proof fn lemma_text_non_empty(t: TreeModel, n: int)
    requires
        t.wf(),
        0 <= n < t.len(),
        t.nodes[n].start < t.nodes[n].end,
    ensures
        t.text(n).len() > 0,
{
    lemma_text_is_source_slice(t, n);
    if t.text(n).len() == 0 {
        assert(t.text(n) =~= Seq::<char>::empty());
        assert(vstd::utf8::encode_utf8(Seq::<char>::empty()).len() == 0);
    }
}

/// A parameter list with as many types as identifiers, each spanning some
/// source text, is extracted to exactly one parameter per identifier, each
/// with a non-empty name and a non-empty type.
pub proof fn lemma_parameter_count(t: TreeModel, pl: int, ps: Seq<Parameter>)
    requires
        t.wf(),
        0 <= pl < t.len(),
        t.types(pl).len() == t.identifiers(pl).len(),
        forall|j: int|
            0 <= j < t.identifiers(pl).len() ==> t.nodes[#[trigger] t.identifiers(pl)[j] as int].start
                < t.nodes[t.identifiers(pl)[j] as int].end,
        forall|j: int|
            0 <= j < t.types(pl).len() ==> t.nodes[#[trigger] t.types(pl)[j] as int].start
                < t.nodes[t.types(pl)[j] as int].end,
        t.params_match(pl, ps),
    ensures
        t.params_ok(pl),
        ps.len() == t.identifiers(pl).len(),
        forall|k: int| 0 <= k < ps.len() ==> (#[trigger] ps[k]).name@.len() > 0 && ps[k].type_@.len() > 0,
{
    lemma_kind_matches_bounds(t, "identifier"@, pl, t.sub_end(pl));
    lemma_kind_matches_bounds(t, "ty"@, pl, t.sub_end(pl));
    assert(t.sub_end(pl) <= t.len());
    assert forall|k: int| 0 <= k < ps.len() implies (#[trigger] ps[k]).name@.len() > 0
        && ps[k].type_@.len() > 0 by {
        lemma_text_non_empty(t, t.identifiers(pl)[k] as int);
        lemma_text_non_empty(t, t.types(pl)[k] as int);
    }
}

} // verus!
