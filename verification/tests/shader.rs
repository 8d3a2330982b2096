use aurora::shader::{
    fragment_entries, lower_module, BinOp, Block, Expr, Field, FieldAccess, FieldInit, FnDecl,
    Item, ItemKind, Module, Param, Stmt, StructDecl, Type, UnOp,
};

fn ty(name: &str) -> Type {
    Type::Path(vec![name.to_string()])
}

fn path(name: &str) -> Expr {
    Expr::Path(vec![name.to_string()])
}

fn float(text: &str) -> Expr {
    Expr::Float(text.to_string())
}

fn field(base: &str, name: &str) -> Expr {
    Expr::Field { base: Box::new(path(base)), field: FieldAccess::Named(name.to_string()) }
}

fn call(name: &str, args: Vec<Expr>) -> Expr {
    Expr::Call { callee: Box::new(path(name)), args }
}

fn times(a: Expr, b: Expr) -> Expr {
    Expr::Binary(BinOp::Mul, Box::new(a), Box::new(b))
}

fn init(name: &str, value: Expr) -> FieldInit {
    FieldInit { name: name.to_string(), value: Some(value) }
}

fn literal(name: &str, fields: Vec<FieldInit>) -> Expr {
    Expr::Struct { path: vec![name.to_string()], fields }
}

fn bind(name: &str, value: Expr) -> Stmt {
    Stmt::Let { name: Some(name.to_string()), init: Some(value) }
}

fn structure(name: &str, fields: Vec<(&str, &str)>) -> Item {
    Item {
        attrs: vec![],
        kind: ItemKind::Struct(StructDecl {
            name: name.to_string(),
            fields: Some(
                fields.into_iter().map(|(n, t)| Field { name: n.to_string(), ty: ty(t) }).collect(),
            ),
        }),
    }
}

fn function(
    attrs: Vec<&str>,
    name: &str,
    params: Vec<(&str, &str)>,
    ret: &str,
    stmts: Vec<Stmt>,
    tail: Expr,
) -> Item {
    Item {
        attrs: attrs.into_iter().map(|a| a.to_string()).collect(),
        kind: ItemKind::Fn(FnDecl {
            name: name.to_string(),
            params: params
                .into_iter()
                .map(|(n, t)| Param::Normal { name: n.to_string(), ty: ty(t) })
                .collect(),
            ret: Some(ty(ret)),
            body: Some(Block { stmts, tail: Some(tail) }),
        }),
    }
}

/// struct VsIn { pos: Vec3, uv: Vec2 }
/// struct VsOut { clip: Vec4, uv: Vec2 }
///
/// @vertex fn vs(vin: VsIn) -> VsOut {
///     let scaled = vin.pos * 2.0
///     VsOut { clip: vec4(scaled, 1.0), uv: vin.uv }
/// }
///
/// @fragment fn fs(vin: VsOut) -> Color {
///     texture(albedo, vin.uv)
/// }
fn module() -> Module {
    Module {
        items: vec![
            structure("VsIn", vec![("pos", "Vec3"), ("uv", "Vec2")]),
            structure("VsOut", vec![("clip", "Vec4"), ("uv", "Vec2")]),
            function(
                vec!["vertex"],
                "vs",
                vec![("vin", "VsIn")],
                "VsOut",
                vec![bind("scaled", times(field("vin", "pos"), float("2.0")))],
                literal(
                    "VsOut",
                    vec![
                        init("clip", call("vec4", vec![path("scaled"), float("1.0")])),
                        init("uv", field("vin", "uv")),
                    ],
                ),
            ),
            function(
                vec!["fragment"],
                "fs",
                vec![("vin", "VsOut")],
                "Color",
                vec![],
                call("texture", vec![path("albedo"), field("vin", "uv")]),
            ),
        ],
    }
}

fn wgsl() -> String {
    lower_module(&module())
}

#[test]
fn emits_struct_definitions_in_wgsl_types() {
    let w = wgsl();
    assert!(w.contains("struct VsIn {"), "{w}");
    assert!(w.contains("pos: vec3<f32>"), "{w}");
    assert!(w.contains("uv: vec2<f32>"), "{w}");
    assert!(w.contains("clip: vec4<f32>"), "{w}");
}

#[test]
fn vertex_stage_and_signature() {
    let w = wgsl();
    assert!(w.contains("@vertex"), "{w}");
    assert!(w.contains("fn vs(vin: VsIn) -> VsOut"), "{w}");
}

#[test]
fn vec_constructor_and_let_lowering() {
    let w = wgsl();
    assert!(w.contains("let scaled = (vin.pos * 2.0);"), "{w}");
    assert!(w.contains("vec4<f32>(scaled, 1.0)"), "{w}");
}

#[test]
fn struct_literal_becomes_positional_constructor() {
    // Fields reordered to declaration order (clip, uv) regardless of literal order.
    let w = wgsl();
    assert!(w.contains("return VsOut(vec4<f32>(scaled, 1.0), vin.uv);"), "{w}");
}

#[test]
fn fragment_stage_output_location_and_texture_sample() {
    let w = wgsl();
    assert!(w.contains("@fragment"), "{w}");
    assert!(w.contains("-> @location(0) vec4<f32>"), "{w}");
    assert!(w.contains("textureSample(albedo, albedo_sampler, vin.uv)"), "{w}");
}

#[test]
fn struct_literal_reorders_out_of_order_fields() {
    let m = Module {
        items: vec![
            structure("Out", vec![("a", "f32"), ("b", "f32")]),
            function(
                vec!["fragment"],
                "f",
                vec![],
                "Color",
                vec![],
                literal("Out", vec![init("b", float("2.0")), init("a", float("1.0"))]),
            ),
        ],
    };
    let w = lower_module(&m);
    // Declared order is (a, b), so the literal `{ b, a }` must come out (1.0, 2.0).
    assert!(w.contains("return Out(1.0, 2.0);"), "{w}");
}

#[test]
fn compute_stage_lowers_with_workgroup_size() {
    let m = Module {
        items: vec![function(
            vec!["compute"],
            "cs",
            vec![("gid", "Vec3")],
            "Color",
            vec![bind("v", times(path("gid"), float("2.0")))],
            call("vec4", vec![path("v"), float("1.0")]),
        )],
    };
    let w = lower_module(&m);
    assert!(w.contains("@compute @workgroup_size(8, 8, 1)"), "{w}");
    assert!(w.contains("fn cs(gid: vec3<f32>)"), "{w}");
    assert!(w.contains("vec4<f32>(v, 1.0)"), "{w}");
}

#[test]
fn non_shader_functions_are_ignored() {
    let m = Module {
        items: vec![function(vec![], "helper", vec![("x", "i32")], "i32", vec![], path("x"))],
    };
    let w = lower_module(&m);
    assert!(!w.contains("fn helper"), "non-shader fns must not be emitted: {w}");
}

/// The whole text, to the letter.
#[test]
fn a_module_lowers_to_the_whole_text() {
    let want = [
        "struct VsIn {",
        "    pos: vec3<f32>,",
        "    uv: vec2<f32>,",
        "}",
        "",
        "struct VsOut {",
        "    clip: vec4<f32>,",
        "    uv: vec2<f32>,",
        "}",
        "",
        "@vertex",
        "fn vs(vin: VsIn) -> VsOut {",
        "    let scaled = (vin.pos * 2.0);",
        "    return VsOut(vec4<f32>(scaled, 1.0), vin.uv);",
        "}",
        "",
        "@fragment",
        "fn fs(vin: VsOut) -> @location(0) vec4<f32> {",
        "    return textureSample(albedo, albedo_sampler, vin.uv);",
        "}",
        "",
        "",
    ];
    let w = wgsl();
    assert!(w.ends_with(&want.join("\n")), "{w}");
}

#[test]
fn fragment_entries_are_the_marked_functions_in_order() {
    let entry = |attrs: Vec<&'static str>, name: &'static str| {
        function(attrs, name, vec![], "Color", vec![], path("c"))
    };
    let m = Module {
        items: vec![
            entry(vec!["fragment"], "one"),
            entry(vec!["vertex"], "two"),
            entry(vec![], "three"),
            entry(vec!["inline", "fragment"], "four"),
        ],
    };
    assert_eq!(fragment_entries(&m), vec!["one".to_string(), "four".to_string()]);
}

#[test]
fn operators_and_literals_lower_as_they_read() {
    let m = Module {
        items: vec![function(
            vec!["fragment"],
            "f",
            vec![],
            "Color",
            vec![
                bind("a", Expr::Int(-3)),
                bind("b", Expr::Unary(UnOp::Neg, Box::new(path("a")))),
                bind(
                    "c",
                    Expr::Binary(BinOp::Le, Box::new(path("a")), Box::new(Expr::Paren(Box::new(path("b"))))),
                ),
                bind("d", Expr::Bool(true)),
            ],
            path("a"),
        )],
    };
    let w = lower_module(&m);
    assert!(w.contains("let a = -3;"), "{w}");
    assert!(w.contains("let c = (a <= (b));"), "{w}");
    assert!(w.contains("let d = true;"), "{w}");
    assert!(w.contains("return a;"), "{w}");
}

/// A float literal has a decimal point, also where the number is whole.
#[test]
fn a_float_literal_has_a_point() {
    let texts = [("2", "2.0"), ("-3", "-3.0"), ("0.25", "0.25"), ("1.0", "1.0"), ("inf", "inf"), ("NaN", "NaN")];
    for (text, want) in texts {
        let m = Module {
            items: vec![function(vec!["fragment"], "f", vec![], "Color", vec![bind("a", float(text))], path("a"))],
        };
        let w = lower_module(&m);
        assert!(w.contains(&format!("let a = {want};")), "{w}");
    }
}
