//! The selection shader module: the source of the fixed primitive-operation
//! program.
//!
//! The program is dispatched with the standard six bindings of one
//! evaluation: the op code, the source and destination mask buffers, the two
//! transforms and the element collection.  Invocation `i` recomputes bit `i`
//! of the destination from the source and destination bits, selecting the
//! behaviour by op code at dispatch time, exactly as
//! [`crate::command::prim_bit_spec`] states it.

use vstd::prelude::*;
use vstd::string::StringExecFns;

verus! {

/// The selection shader module.
pub struct Mod;

impl Mod {
    /// The module name.
    pub fn name(&self) -> (r: &'static str)
        ensures
            r@ == "selection"@,
    {
        "selection"
    }

    /// The module groups the programs below and has no source of its own.
    pub fn source(&self) -> (r: &'static str)
        ensures
            r@.len() == 0,
    {
        proof {
            reveal_strlit("");
        }
        ""
    }

    /// The names of the submodules of this module.
    pub fn submodule_names(&self) -> (r: Vec<&'static str>)
        ensures
            r@.len() == 1,
            r@[0]@ == "primitive_ops"@,
    {
        let mut v: Vec<&'static str> = Vec::new();
        v.push("primitive_ops");
        v
    }
}

/// The source of the fixed primitive-operation compute program.
///
/// One invocation per element: bit `i % 32` of destination word `i / 32` is
/// recomputed from the corresponding source and destination bits by the
/// bound op code, so padding bits past the element count are never touched.
pub fn primitive_ops_source() -> (r: &'static str) {
    "@group(0) @binding(0)\nvar<uniform> op: u32;\n\n@group(0) @binding(1)\nvar<storage, read> source: array<u32>;\n\n@group(0) @binding(2)\nvar<storage, read_write> dest: array<atomic<u32>>;\n\n@group(0) @binding(3)\nvar<uniform> model_transform: mat4x4<f32>;\n\n@group(0) @binding(4)\nvar<uniform> gaussian_transform: mat4x4<f32>;\n\n@group(0) @binding(5)\nvar<storage, read> gaussians: array<vec4<f32>>;\n\n@compute @workgroup_size(256)\nfn main(@builtin(global_invocation_id) gid: vec3<u32>) {\n    let i = gid.x;\n    if i >= arrayLength(&gaussians) {\n        return;\n    }\n    let word = i / 32u;\n    let bit = i % 32u;\n    let mask = 1u << bit;\n    let s = (source[word] >> bit) & 1u;\n    let d = (atomicLoad(&dest[word]) >> bit) & 1u;\n    var r: u32;\n    switch op {\n        case 0u: { r = s | d; }\n        case 1u: { r = s & d; }\n        case 2u: { r = s & (1u - d); }\n        case 3u: { r = s ^ d; }\n        default: { r = 1u - d; }\n    }\n    if r == 1u {\n        atomicOr(&dest[word], mask);\n    } else {\n        atomicAnd(&dest[word], ~mask);\n    }\n}\n"
}


/// The decimal digit character of one digit value.
pub open spec fn dec_digit(d: int) -> char {
    if d == 0 {
        '0'
    } else if d == 1 {
        '1'
    } else if d == 2 {
        '2'
    } else if d == 3 {
        '3'
    } else if d == 4 {
        '4'
    } else if d == 5 {
        '5'
    } else if d == 6 {
        '6'
    } else if d == 7 {
        '7'
    } else if d == 8 {
        '8'
    } else {
        '9'
    }
}

/// The decimal digits of a number, most significant first.
pub open spec fn dec_of(n: nat) -> Seq<char>
    decreases n,
{
    if n < 10 {
        seq![dec_digit(n as int)]
    } else {
        dec_of(n / 10).push(dec_digit((n % 10) as int))
    }
}

fn digit_str(d: u32) -> (r: &'static str)
    requires
        d < 10,
    ensures
        r@ =~= seq![dec_digit(d as int)],
{
    proof {
        reveal_strlit("0");
        reveal_strlit("1");
        reveal_strlit("2");
        reveal_strlit("3");
        reveal_strlit("4");
        reveal_strlit("5");
        reveal_strlit("6");
        reveal_strlit("7");
        reveal_strlit("8");
        reveal_strlit("9");
    }
    if d == 0 {
        "0"
    } else if d == 1 {
        "1"
    } else if d == 2 {
        "2"
    } else if d == 3 {
        "3"
    } else if d == 4 {
        "4"
    } else if d == 5 {
        "5"
    } else if d == 6 {
        "6"
    } else if d == 7 {
        "7"
    } else if d == 8 {
        "8"
    } else {
        "9"
    }
}

/// Render a number in decimal.
fn dec_string(n: u32) -> (r: String)
    ensures
        r@ == dec_of(n as nat),
    decreases n,
{
    if n < 10 {
        String::from_str(digit_str(n))
    } else {
        let mut r = dec_string(n / 10);
        r.append(digit_str(n % 10));
        r
    }
}

/// The opening of the generated dispatcher program: the standard six
/// bindings and the per-invocation element guard.
pub open spec fn dispatcher_header() -> Seq<char> {
    "@group(0) @binding(0)\nvar<uniform> op: u32;\n\n@group(0) @binding(1)\nvar<storage, read> source: array<u32>;\n\n@group(0) @binding(2)\nvar<storage, read_write> dest: array<atomic<u32>>;\n\n@group(0) @binding(3)\nvar<uniform> model_transform: mat4x4<f32>;\n\n@group(0) @binding(4)\nvar<uniform> gaussian_transform: mat4x4<f32>;\n\n@group(0) @binding(5)\nvar<storage, read> gaussians: array<vec4<f32>>;\n\n@compute @workgroup_size(256)\nfn main(@builtin(global_invocation_id) gid: vec3<u32>) {\n    let i = gid.x;\n    if i >= arrayLength(&gaussians) {\n        return;\n    }\n"@
}

/// The closing of the generated dispatcher program.
pub open spec fn dispatcher_footer() -> Seq<char> {
    "}\n"@
}

/// One spliced branch: run the snippet when the bound op code matches.
pub open spec fn dispatcher_branch(code: nat, snippet: Seq<char>) -> Seq<char> {
    "    if op == "@ + dec_of(code) + "u {\n"@ + snippet + "    }\n"@
}

/// The branches of all snippets, numbered upward from `base`.
pub open spec fn dispatcher_branches(snippets: Seq<Seq<char>>, base: nat) -> Seq<char>
    decreases snippets.len(),
{
    if snippets.len() == 0 {
        Seq::<char>::empty()
    } else {
        dispatcher_branch(base, snippets.first()) + dispatcher_branches(
            snippets.drop_first(),
            base + 1,
        )
    }
}

/// The whole generated dispatcher program of a snippet list.
pub open spec fn dispatcher_source(snippets: Seq<Seq<char>>) -> Seq<char> {
    dispatcher_header() + dispatcher_branches(snippets, 5) + dispatcher_footer()
}

proof fn lemma_dispatcher_branches_snoc(snippets: Seq<Seq<char>>, x: Seq<char>, base: nat)
    ensures
        dispatcher_branches(snippets.push(x), base) == dispatcher_branches(snippets, base)
            + dispatcher_branch(base + snippets.len(), x),
    decreases snippets.len(),
{
    if snippets.len() == 0 {
        assert(snippets.push(x).drop_first() =~= Seq::<Seq<char>>::empty());
        assert(snippets.push(x).first() == x);
        assert(dispatcher_branches(Seq::<Seq<char>>::empty(), base + 1) =~= Seq::<char>::empty());
        assert(dispatcher_branches(snippets.push(x), base) =~= dispatcher_branch(base, x)
            + Seq::<char>::empty());
        assert(dispatcher_branch(base, x) + Seq::<char>::empty() =~= dispatcher_branch(base, x));
        assert(dispatcher_branches(snippets, base) + dispatcher_branch(base, x)
            =~= dispatcher_branch(base, x));
    } else {
        assert(snippets.push(x).drop_first() =~= snippets.drop_first().push(x));
        assert(snippets.push(x).first() == snippets.first());
        lemma_dispatcher_branches_snoc(snippets.drop_first(), x, base + 1);
        assert(dispatcher_branches(snippets.push(x), base) =~= dispatcher_branches(snippets, base)
            + dispatcher_branch(base + snippets.len(), x));
    }
}

/// Build the textual-splice dispatcher program: one generated source whose
/// body runs, per op code, the registered snippet spliced into a chain of
/// op-code branches.  This is the alternative registration strategy to one
/// compiled program per custom operation; both expose the same dispatch
/// contract to the evaluator.
pub fn build_dispatcher_source(snippets: &Vec<String>) -> (r: String)
    requires
        snippets@.len() + 5 <= u32::MAX,
    ensures
        r@ == dispatcher_source(snippets@.map_values(|s: String| s@)),
    decreases snippets@.len(),
{
    let ghost views = snippets@.map_values(|s: String| s@);
    let mut out = String::from_str(
        "@group(0) @binding(0)\nvar<uniform> op: u32;\n\n@group(0) @binding(1)\nvar<storage, read> source: array<u32>;\n\n@group(0) @binding(2)\nvar<storage, read_write> dest: array<atomic<u32>>;\n\n@group(0) @binding(3)\nvar<uniform> model_transform: mat4x4<f32>;\n\n@group(0) @binding(4)\nvar<uniform> gaussian_transform: mat4x4<f32>;\n\n@group(0) @binding(5)\nvar<storage, read> gaussians: array<vec4<f32>>;\n\n@compute @workgroup_size(256)\nfn main(@builtin(global_invocation_id) gid: vec3<u32>) {\n    let i = gid.x;\n    if i >= arrayLength(&gaussians) {\n        return;\n    }\n",
    );
    let mut k: usize = 0;
    while k < snippets.len()
        invariant
            snippets@.len() + 5 <= u32::MAX,
            k <= snippets@.len(),
            views == snippets@.map_values(|s: String| s@),
            out@ == dispatcher_header() + dispatcher_branches(views.take(k as int), 5),
        decreases snippets@.len() - k,
    {
        out.append("    if op == ");
        let code = dec_string(5 + k as u32);
        out.append(code.as_str());
        out.append("u {\n");
        out.append(snippets[k].as_str());
        out.append("    }\n");
        proof {
            lemma_dispatcher_branches_snoc(views.take(k as int), views[k as int], 5);
            assert(views.take(k as int).push(views[k as int]) =~= views.take(k as int + 1));
            assert(out@ =~= dispatcher_header() + dispatcher_branches(views.take(k as int + 1), 5));
        }
        k = k + 1;
    }
    out.append("}\n");
    proof {
        assert(views.take(views.len() as int) =~= views);
        assert(out@ =~= dispatcher_source(views));
    }
    out
}

} // verus!
