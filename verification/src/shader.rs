//! Shader lowering: functions marked with a stage become WGSL text, together with
//! the structs of their module.
use crate::text;
use crate::text::{chars_of, int_to_str};
use vstd::prelude::*;
use vstd::string::*;

verus! {

/// A type as written: a path, or something the shading language has no name for.
pub enum Type {
    Path(Vec<String>),
    Other,
}

#[derive(Clone, Copy, PartialEq, Eq, Structural, Debug)]
pub enum UnOp {
    Neg,
    Not,
    Other,
}

#[derive(Clone, Copy, PartialEq, Eq, Structural, Debug)]
pub enum BinOp {
    Add,
    Sub,
    Mul,
    Div,
    Rem,
    Eq,
    Ne,
    Lt,
    Gt,
    Le,
    Ge,
    And,
    Or,
}

pub enum FieldAccess {
    Named(String),
    Index(u32),
}

pub struct FieldInit {
    pub name: String,
    /// Without a value the field takes the variable of its own name.
    pub value: Option<Expr>,
}

pub enum Expr {
    Int(i64),
    /// A float, in decimal digits. A whole one may go without a decimal point.
    Float(String),
    Bool(bool),
    Path(Vec<String>),
    Paren(Box<Expr>),
    Field { base: Box<Expr>, field: FieldAccess },
    Unary(UnOp, Box<Expr>),
    Binary(BinOp, Box<Expr>, Box<Expr>),
    Call { callee: Box<Expr>, args: Vec<Expr> },
    Struct { path: Vec<String>, fields: Vec<FieldInit> },
    Return(Option<Box<Expr>>),
    Other,
}

pub enum Stmt {
    /// A binding; without a name where the pattern is no plain name.
    Let { name: Option<String>, init: Option<Expr> },
    Expr(Expr),
    Defer,
}

pub struct Block {
    pub stmts: Vec<Stmt>,
    pub tail: Option<Expr>,
}

pub enum Param {
    Normal { name: String, ty: Type },
    SelfParam,
}

pub struct FnDecl {
    pub name: String,
    pub params: Vec<Param>,
    pub ret: Option<Type>,
    pub body: Option<Block>,
}

pub struct Field {
    pub name: String,
    pub ty: Type,
}

pub struct StructDecl {
    pub name: String,
    /// The named fields, where the struct has such.
    pub fields: Option<Vec<Field>>,
}

pub enum ItemKind {
    Struct(StructDecl),
    Fn(FnDecl),
    Other,
}

pub struct Item {
    pub attrs: Vec<String>,
    pub kind: ItemKind,
}

pub struct Module {
    pub items: Vec<Item>,
}

#[derive(Clone, Copy, PartialEq, Eq, Structural, Debug)]
pub enum Stage {
    Vertex,
    Fragment,
    Compute,
}

/// `parts` with `sep` between them.
pub open spec fn joined(parts: Seq<Seq<char>>, sep: Seq<char>) -> Seq<char>
    decreases parts.len(),
{
    if parts.len() == 0 {
        Seq::empty()
    } else if parts.len() == 1 {
        parts[0]
    } else {
        joined(parts.drop_last(), sep) + sep + parts.last()
    }
}

pub open spec fn words(v: Seq<String>) -> Seq<Seq<char>> {
    Seq::new(v.len(), |i: int| v[i]@)
}

/// The last name of a path.
pub open spec fn last_name(path: Seq<String>) -> Seq<char> {
    if path.len() == 0 {
        Seq::empty()
    } else {
        path.last()@
    }
}

/// The stage an attribute names.
pub open spec fn stage_of_attr(a: Seq<char>) -> Option<Stage> {
    if a == "vertex"@ {
        Some(Stage::Vertex)
    } else if a == "fragment"@ {
        Some(Stage::Fragment)
    } else if a == "compute"@ {
        Some(Stage::Compute)
    } else {
        None
    }
}

/// The stage the first of some attributes that name one names.
pub open spec fn stage_of(attrs: Seq<String>) -> Option<Stage>
    decreases attrs.len(),
{
    if attrs.len() == 0 {
        None
    } else if stage_of_attr(attrs[0]@) is Some {
        stage_of_attr(attrs[0]@)
    } else {
        stage_of(attrs.drop_first())
    }
}

/// A type's name in the shading language.
pub open spec fn ty_text(t: Type) -> Seq<char> {
    match t {
        Type::Other => "f32"@,
        Type::Path(p) => {
            let n = last_name(p@);
            if n == "f32"@ || n == "f64"@ {
                "f32"@
            } else if n == "i32"@ || n == "i64"@ {
                "i32"@
            } else if n == "u32"@ || n == "u64"@ {
                "u32"@
            } else if n == "bool"@ {
                "bool"@
            } else if n == "Vec2"@ {
                "vec2<f32>"@
            } else if n == "Vec3"@ {
                "vec3<f32>"@
            } else if n == "Vec4"@ || n == "Color"@ {
                "vec4<f32>"@
            } else if n == "Mat3"@ {
                "mat3x3<f32>"@
            } else if n == "Mat4"@ {
                "mat4x4<f32>"@
            } else {
                n
            }
        },
    }
}

pub open spec fn op_text(op: BinOp) -> Seq<char> {
    match op {
        BinOp::Add => "+"@,
        BinOp::Sub => "-"@,
        BinOp::Mul => "*"@,
        BinOp::Div => "/"@,
        BinOp::Rem => "%"@,
        BinOp::Eq => "=="@,
        BinOp::Ne => "!="@,
        BinOp::Lt => "<"@,
        BinOp::Gt => ">"@,
        BinOp::Le => "<="@,
        BinOp::Ge => ">="@,
        BinOp::And => "&&"@,
        BinOp::Or => "||"@,
    }
}

/// The names of a struct's fields in the order of its declaration, where the first
/// `n` items declare one of that name. The last such declaration counts.
pub open spec fn declared(items: Seq<Item>, n: int, name: Seq<char>) -> Option<Seq<Seq<char>>>
    decreases n,
{
    if n <= 0 {
        None
    } else {
        match items[n - 1].kind {
            ItemKind::Struct(s) => match s.fields {
                Some(f) => if s.name@ == name {
                    Some(field_names(f@))
                } else {
                    declared(items, n - 1, name)
                },
                None => declared(items, n - 1, name),
            },
            _ => declared(items, n - 1, name),
        }
    }
}

pub open spec fn field_names(f: Seq<Field>) -> Seq<Seq<char>> {
    Seq::new(f.len(), |i: int| f[i].name@)
}

/// Whether a number is written as a whole one: digits, with or without a sign.
pub open spec fn is_whole(x: Seq<char>) -> bool {
    forall|i: int| 0 <= i < x.len() ==> #[trigger] x[i] == '-' || '0' <= x[i] <= '9'
}

/// A float literal's text: a whole number gets the decimal point that a float literal
/// needs.
pub open spec fn float_text(x: Seq<char>) -> Seq<char> {
    if is_whole(x) {
        x + ".0"@
    } else {
        x
    }
}

/// An expression's text.
pub open spec fn expr_text(e: Expr, items: Seq<Item>) -> Seq<char>
    decreases e, 0int,
{
    match e {
        Expr::Int(n) => text::chars(text::decimal(n as int)),
        Expr::Float(x) => float_text(x@),
        Expr::Bool(b) => if b {
            "true"@
        } else {
            "false"@
        },
        Expr::Path(p) => joined(words(p@), "."@),
        Expr::Paren(x) => "("@ + expr_text(*x, items) + ")"@,
        Expr::Field { base, field } => expr_text(*base, items) + "."@ + (match field {
            FieldAccess::Named(n) => n@,
            FieldAccess::Index(i) => text::chars(text::decimal(i as int)),
        }),
        Expr::Unary(op, x) => (match op {
            UnOp::Neg => "-"@ + expr_text(*x, items),
            UnOp::Not => "!"@ + expr_text(*x, items),
            UnOp::Other => expr_text(*x, items),
        }),
        Expr::Binary(op, a, b) => "("@ + expr_text(*a, items) + " "@ + op_text(op) + " "@
            + expr_text(*b, items) + ")"@,
        Expr::Call { callee, args } => match *callee {
            Expr::Path(p) => call_text(last_name(p@), args_text(args@, args@.len() as int, items)),
            _ => "/* indirect call */"@,
        },
        Expr::Struct { path, fields } => last_name(path@) + "("@ + joined(
            ordered(
                fields@,
                inits_text(fields@, fields@.len() as int, items),
                declared(items, items.len() as int, last_name(path@)),
            ),
            ", "@,
        ) + ")"@,
        Expr::Return(_) => "/* unsupported */"@,
        Expr::Other => "/* unsupported */"@,
    }
}

/// The texts of the first `n` arguments.
pub open spec fn args_text(args: Seq<Expr>, n: int, items: Seq<Item>) -> Seq<Seq<char>>
    decreases args, n,
{
    if n <= 0 || n > args.len() {
        Seq::empty()
    } else {
        args_text(args, n - 1, items).push(expr_text(args[n - 1], items))
    }
}

/// The values of the first `n` fields of a literal.
pub open spec fn inits_text(fields: Seq<FieldInit>, n: int, items: Seq<Item>) -> Seq<Seq<char>>
    decreases fields, n,
{
    if n <= 0 || n > fields.len() {
        Seq::empty()
    } else {
        inits_text(fields, n - 1, items).push(
            match fields[n - 1].value {
                Some(e) => expr_text(e, items),
                None => fields[n - 1].name@,
            },
        )
    }
}

/// A call's text.
pub open spec fn call_text(name: Seq<char>, args: Seq<Seq<char>>) -> Seq<char> {
    let list = joined(args, ", "@);
    if name == "vec2"@ {
        "vec2<f32>("@ + list + ")"@
    } else if name == "vec3"@ {
        "vec3<f32>("@ + list + ")"@
    } else if name == "vec4"@ {
        "vec4<f32>("@ + list + ")"@
    } else if name == "texture"@ && args.len() == 2 {
        "textureSample("@ + args[0] + ", "@ + args[0] + "_sampler, "@ + args[1] + ")"@
    } else {
        name + "("@ + list + ")"@
    }
}

/// The value a literal gives a field: that of the last of the first `n` that name
/// it.
pub open spec fn value_for(
    fields: Seq<FieldInit>,
    values: Seq<Seq<char>>,
    n: int,
    name: Seq<char>,
) -> Option<Seq<char>>
    decreases n,
{
    if n <= 0 {
        None
    } else if fields[n - 1].name@ == name {
        Some(values[n - 1])
    } else {
        value_for(fields, values, n - 1, name)
    }
}

/// The arguments of a struct's constructor: in the order of the declaration, with
/// `0.0` for what the literal leaves out; in the order of the literal where there
/// is no declaration.
pub open spec fn ordered(
    fields: Seq<FieldInit>,
    values: Seq<Seq<char>>,
    order: Option<Seq<Seq<char>>>,
) -> Seq<Seq<char>> {
    match order {
        Some(names) => Seq::new(
            names.len(),
            |i: int|
                match value_for(fields, values, fields.len() as int, names[i]) {
                    Some(v) => v,
                    None => "0.0"@,
                },
        ),
        None => Seq::new(
            fields.len(),
            |i: int|
                match value_for(fields, values, fields.len() as int, fields[i].name@) {
                    Some(v) => v,
                    None => Seq::empty(),
                },
        ),
    }
}

/// A statement's text.
pub open spec fn stmt_text(s: Stmt, items: Seq<Item>) -> Seq<char> {
    match s {
        Stmt::Let { name, init } => "    let "@ + (match name {
            Some(n) => n@,
            None => "_"@,
        }) + " = "@ + opt_text(init, items) + ";\n"@,
        Stmt::Expr(e) => match e {
            Expr::Return(v) => "    return "@ + (match v {
                Some(x) => expr_text(*x, items),
                None => Seq::empty(),
            }) + ";\n"@,
            _ => "    "@ + expr_text(e, items) + ";\n"@,
        },
        Stmt::Defer => Seq::empty(),
    }
}

pub open spec fn opt_text(e: Option<Expr>, items: Seq<Item>) -> Seq<char> {
    match e {
        Some(x) => expr_text(x, items),
        None => Seq::empty(),
    }
}

pub open spec fn stmts_text(s: Seq<Stmt>, n: int, items: Seq<Item>) -> Seq<char>
    decreases n,
{
    if n <= 0 {
        Seq::empty()
    } else {
        stmts_text(s, n - 1, items) + stmt_text(s[n - 1], items)
    }
}

/// A block's text. What it evaluates to is returned.
pub open spec fn block_text(b: Block, items: Seq<Item>) -> Seq<char> {
    stmts_text(b.stmts@, b.stmts@.len() as int, items) + (match b.tail {
        Some(e) => "    return "@ + expr_text(e, items) + ";\n"@,
        None => Seq::empty(),
    })
}

/// The parameters of a function, the receiver left out.
pub open spec fn params_text(p: Seq<Param>, n: int) -> Seq<Seq<char>>
    decreases n,
{
    if n <= 0 {
        Seq::empty()
    } else {
        match p[n - 1] {
            Param::Normal { name, ty } => params_text(p, n - 1).push(
                name@ + ": "@ + ty_text(ty),
            ),
            Param::SelfParam => params_text(p, n - 1),
        }
    }
}

pub open spec fn stage_text(s: Stage) -> Seq<char> {
    match s {
        Stage::Vertex => "@vertex"@,
        Stage::Fragment => "@fragment"@,
        Stage::Compute => "@compute @workgroup_size(8, 8, 1)"@,
    }
}

/// What a stage function returns. A fragment's colour goes to the first target.
pub open spec fn ret_text(ret: Option<Type>, stage: Stage) -> Seq<char> {
    match ret {
        Some(t) => if stage == Stage::Fragment {
            "@location(0) "@ + ty_text(t)
        } else {
            ty_text(t)
        },
        None => "()"@,
    }
}

pub open spec fn fn_text(stage: Stage, f: FnDecl, items: Seq<Item>) -> Seq<char> {
    stage_text(stage) + "\nfn "@ + f.name@ + "("@ + joined(
        params_text(f.params@, f.params@.len() as int),
        ", "@,
    ) + ") -> "@ + ret_text(f.ret, stage) + " {\n"@ + (match f.body {
        Some(b) => block_text(b, items),
        None => Seq::empty(),
    }) + "}\n"@
}

pub open spec fn fields_text(f: Seq<Field>, n: int) -> Seq<char>
    decreases n,
{
    if n <= 0 {
        Seq::empty()
    } else {
        fields_text(f, n - 1) + ("    "@ + f[n - 1].name@ + ": "@ + ty_text(f[n - 1].ty) + ",\n"@)
    }
}

/// What an item contributes as a struct.
pub open spec fn struct_text(item: Item) -> Seq<char> {
    match item.kind {
        ItemKind::Struct(s) => match s.fields {
            Some(f) => "struct "@ + s.name@ + " {\n"@ + fields_text(f@, f@.len() as int) + "}\n\n"@,
            None => Seq::empty(),
        },
        _ => Seq::empty(),
    }
}

/// What an item contributes as a shader.
pub open spec fn entry_text(item: Item, items: Seq<Item>) -> Seq<char> {
    match (stage_of(item.attrs@), item.kind) {
        (Some(stage), ItemKind::Fn(f)) => fn_text(stage, f, items) + "\n"@,
        _ => Seq::empty(),
    }
}

pub open spec fn structs_text(items: Seq<Item>, n: int) -> Seq<char>
    decreases n,
{
    if n <= 0 {
        Seq::empty()
    } else {
        structs_text(items, n - 1) + struct_text(items[n - 1])
    }
}

pub open spec fn entries_text(items: Seq<Item>, n: int) -> Seq<char>
    decreases n,
{
    if n <= 0 {
        Seq::empty()
    } else {
        entries_text(items, n - 1) + entry_text(items[n - 1], items)
    }
}

/// A module's text: its structs, then its shaders.
pub open spec fn module_text(items: Seq<Item>) -> Seq<char> {
    structs_text(items, items.len() as int) + entries_text(items, items.len() as int)
}

/// The names of the fragment shaders among the first `n` items.
pub open spec fn fragments(items: Seq<Item>, n: int) -> Seq<Seq<char>>
    decreases n,
{
    if n <= 0 {
        Seq::empty()
    } else {
        match (stage_of(items[n - 1].attrs@), items[n - 1].kind) {
            (Some(Stage::Fragment), ItemKind::Fn(f)) => fragments(items, n - 1).push(f.name@),
            _ => fragments(items, n - 1),
        }
    }
}

fn is(s: &String, lit: &str) -> (r: bool)
    ensures
        r == (s@ == lit@),
{
    *s == lit.to_owned()
}

/// One character of a number, as a string.
fn digit(b: u8) -> (r: &'static str)
    requires
        b == 45 || 48 <= b <= 57,
    ensures
        r@ == seq![b as char],
{
    proof {
        reveal_strlit("-");
        reveal_strlit("0");
        reveal_strlit("1");
        reveal_strlit("2");
        reveal_strlit("3");
        reveal_strlit("4");
        reveal_strlit("5");
        reveal_strlit("6");
        reveal_strlit("7");
        reveal_strlit("8");
        reveal_strlit("9");
    }
    let r: &'static str = match b {
        45 => "-",
        48 => "0",
        49 => "1",
        50 => "2",
        51 => "3",
        52 => "4",
        53 => "5",
        54 => "6",
        55 => "7",
        56 => "8",
        _ => "9",
    };
    assert(r@ =~= seq![b as char]);
    r
}

fn int_text(n: i64) -> (r: String)
    ensures
        r@ == text::chars(text::decimal(n as int)),
{
    let b = int_to_str(n);
    proof {
        text::lemma_decimal(n as int);
    }
    let mut r: String = String::new();
    let mut i: usize = 0;
    assert(text::chars(b@.take(0)) =~= r@);
    while i < b.len()
        invariant
            i <= b@.len(),
            forall|k: int| 0 <= k < b@.len() ==> #[trigger] b@[k] == 45 || 48 <= b@[k] <= 57,
            r@ == text::chars(b@.take(i as int)),
        decreases b@.len() - i,
    {
        r.append(digit(b[i]));
        assert(text::chars(b@.take(i + 1)) =~= text::chars(b@.take(i as int)) + seq![
            b@[i as int] as char,
        ]);
        i += 1;
    }
    assert(b@.take(i as int) =~= b@);
    r
}

fn join(parts: &Vec<String>, sep: &str) -> (r: String)
    ensures
        r@ == joined(words(parts@), sep@),
{
    let mut r: String = String::new();
    let mut i: usize = 0;
    assert(words(parts@.take(0)) =~= Seq::<Seq<char>>::empty());
    while i < parts.len()
        invariant
            i <= parts@.len(),
            r@ == joined(words(parts@.take(i as int)), sep@),
        decreases parts@.len() - i,
    {
        let ghost w = words(parts@.take(i + 1));
        assert(w.drop_last() =~= words(parts@.take(i as int)));
        assert(w.last() == parts@[i as int]@);
        if i > 0 {
            r.append(sep);
        }
        r.append(parts[i].as_str());
        assert(i == 0 ==> r@ =~= parts@[0]@);
        i += 1;
    }
    assert(parts@.take(i as int) =~= parts@);
    r
}

fn tail_name(path: &Vec<String>) -> (r: String)
    ensures
        r@ == last_name(path@),
{
    let n: usize = path.len();
    if n == 0 {
        String::new()
    } else {
        path[n - 1].clone()
    }
}

fn shader_stage(item: &Item) -> (r: Option<Stage>)
    ensures
        r == stage_of(item.attrs@),
{
    let mut i: usize = 0;
    assert(item.attrs@.skip(0) =~= item.attrs@);
    while i < item.attrs.len()
        invariant
            i <= item.attrs@.len(),
            stage_of(item.attrs@) == stage_of(item.attrs@.skip(i as int)),
        decreases item.attrs@.len() - i,
    {
        let a = &item.attrs[i];
        assert(item.attrs@.skip(i as int)[0] == *a);
        assert(item.attrs@.skip(i as int).drop_first() =~= item.attrs@.skip(i + 1));
        if is(a, "vertex") {
            return Some(Stage::Vertex);
        }
        if is(a, "fragment") {
            return Some(Stage::Fragment);
        }
        if is(a, "compute") {
            return Some(Stage::Compute);
        }
        i += 1;
    }
    assert(item.attrs@.skip(i as int).len() == 0);
    None
}

fn ty_to_wgsl(t: &Type) -> (r: String)
    ensures
        r@ == ty_text(*t),
{
    match t {
        Type::Other => "f32".to_owned(),
        Type::Path(p) => {
            let n = tail_name(p);
            if is(&n, "f32") || is(&n, "f64") {
                "f32".to_owned()
            } else if is(&n, "i32") || is(&n, "i64") {
                "i32".to_owned()
            } else if is(&n, "u32") || is(&n, "u64") {
                "u32".to_owned()
            } else if is(&n, "bool") {
                "bool".to_owned()
            } else if is(&n, "Vec2") {
                "vec2<f32>".to_owned()
            } else if is(&n, "Vec3") {
                "vec3<f32>".to_owned()
            } else if is(&n, "Vec4") || is(&n, "Color") {
                "vec4<f32>".to_owned()
            } else if is(&n, "Mat3") {
                "mat3x3<f32>".to_owned()
            } else if is(&n, "Mat4") {
                "mat4x4<f32>".to_owned()
            } else {
                n
            }
        },
    }
}

fn bin_op(op: BinOp) -> (r: &'static str)
    ensures
        r@ == op_text(op),
{
    match op {
        BinOp::Add => "+",
        BinOp::Sub => "-",
        BinOp::Mul => "*",
        BinOp::Div => "/",
        BinOp::Rem => "%",
        BinOp::Eq => "==",
        BinOp::Ne => "!=",
        BinOp::Lt => "<",
        BinOp::Gt => ">",
        BinOp::Le => "<=",
        BinOp::Ge => ">=",
        BinOp::And => "&&",
        BinOp::Or => "||",
    }
}

/// The names of a struct's fields, by its last declaration.
fn collect_structs(items: &Vec<Item>, name: &String) -> (r: Option<Vec<String>>)
    ensures
        match r {
            Some(v) => declared(items@, items@.len() as int, name@) == Some(words(v@)),
            None => declared(items@, items@.len() as int, name@) is None,
        },
{
    let mut n: usize = items.len();
    while n > 0
        invariant
            n <= items@.len(),
            declared(items@, items@.len() as int, name@) == declared(items@, n as int, name@),
        decreases n,
    {
        if let ItemKind::Struct(s) = &items[n - 1].kind {
            if let Some(f) = &s.fields {
                if s.name == *name {
                    let mut v: Vec<String> = Vec::new();
                    let mut i: usize = 0;
                    while i < f.len()
                        invariant
                            i <= f@.len(),
                            v@.len() == i,
                            forall|k: int| 0 <= k < i ==> (#[trigger] v@[k])@ == f@[k].name@,
                        decreases f@.len() - i,
                    {
                        v.push(f[i].name.clone());
                        i += 1;
                    }
                    assert(words(v@) =~= field_names(f@));
                    return Some(v);
                }
            }
        }
        n -= 1;
    }
    None
}

fn fmt_float(x: &String) -> (r: String)
    ensures
        r@ == float_text(x@),
{
    let t = chars_of(x.as_str());
    let mut r: String = x.clone();
    let mut i: usize = 0;
    while i < t.len()
        invariant
            i <= t@.len(),
            t@ == x@,
            r@ == x@,
            forall|k: int| 0 <= k < i ==> #[trigger] t@[k] == '-' || '0' <= t@[k] <= '9',
        decreases t@.len() - i,
    {
        let c: char = t[i];
        if !(c == '-' || ('0' <= c && c <= '9')) {
            assert(!is_whole(x@));
            return r;
        }
        i += 1;
    }
    r.append(".0");
    r
}

fn lower_expr(e: &Expr, items: &Vec<Item>) -> (r: String)
    ensures
        r@ == expr_text(*e, items@),
    decreases e, 0int,
{
    match e {
        Expr::Int(n) => int_text(*n),
        Expr::Float(x) => fmt_float(x),
        Expr::Bool(b) => if *b {
            "true".to_owned()
        } else {
            "false".to_owned()
        },
        Expr::Path(p) => join(p, "."),
        Expr::Paren(x) => {
            let mut r: String = "(".to_owned();
            r.append(lower_expr(x, items).as_str());
            r.append(")");
            r
        },
        Expr::Field { base, field } => {
            let mut r: String = lower_expr(base, items);
            r.append(".");
            match field {
                FieldAccess::Named(n) => r.append(n.as_str()),
                FieldAccess::Index(i) => r.append(int_text(*i as i64).as_str()),
            }
            r
        },
        Expr::Unary(op, x) => {
            let s = lower_expr(x, items);
            let mut r: String = match op {
                UnOp::Neg => "-".to_owned(),
                UnOp::Not => "!".to_owned(),
                UnOp::Other => String::new(),
            };
            r.append(s.as_str());
            assert(r@ =~= expr_text(*e, items@));
            r
        },
        Expr::Binary(op, a, b) => {
            let mut r: String = "(".to_owned();
            r.append(lower_expr(a, items).as_str());
            r.append(" ");
            r.append(bin_op(*op));
            r.append(" ");
            r.append(lower_expr(b, items).as_str());
            r.append(")");
            r
        },
        Expr::Call { callee, args } => match &**callee {
            Expr::Path(p) => {
                let a = lower_args(args, items);
                lower_call(&tail_name(p), &a)
            },
            _ => "/* indirect call */".to_owned(),
        },
        Expr::Struct { path, fields } => {
            let v = lower_inits(fields, items);
            lower_struct(&tail_name(path), fields, &v, items)
        },
        Expr::Return(_) => "/* unsupported */".to_owned(),
        Expr::Other => "/* unsupported */".to_owned(),
    }
}

fn lower_args(args: &Vec<Expr>, items: &Vec<Item>) -> (r: Vec<String>)
    ensures
        words(r@) == args_text(args@, args@.len() as int, items@),
    decreases args@, args@.len() + 1,
{
    let mut r: Vec<String> = Vec::new();
    let mut i: usize = 0;
    assert(words(r@) =~= args_text(args@, 0, items@));
    while i < args.len()
        invariant
            i <= args@.len(),
            words(r@) == args_text(args@, i as int, items@),
        decreases args@.len() - i,
    {
        let ghost before = r@;
        assert(decreases_to!(args@ => args@[i as int]));
        let s = lower_expr(&args[i], items);
        r.push(s);
        assert(words(r@) =~= words(before).push(s@));
        i += 1;
    }
    r
}

fn lower_inits(fields: &Vec<FieldInit>, items: &Vec<Item>) -> (r: Vec<String>)
    ensures
        words(r@) == inits_text(fields@, fields@.len() as int, items@),
        r@.len() == fields@.len(),
    decreases fields@, fields@.len() + 1,
{
    let mut r: Vec<String> = Vec::new();
    let mut i: usize = 0;
    assert(words(r@) =~= inits_text(fields@, 0, items@));
    while i < fields.len()
        invariant
            i <= fields@.len(),
            r@.len() == i,
            words(r@) == inits_text(fields@, i as int, items@),
        decreases fields@.len() - i,
    {
        let ghost before = r@;
        assert(decreases_to!(fields@ => fields@[i as int]));
        let s = match &fields[i].value {
            Some(e) => {
                assert(decreases_to!(fields@[i as int] => fields@[i as int].value));
                lower_expr(e, items)
            },
            None => fields[i].name.clone(),
        };
        r.push(s);
        assert(words(r@) =~= words(before).push(s@));
        i += 1;
    }
    r
}

fn lower_call(name: &String, a: &Vec<String>) -> (r: String)
    ensures
        r@ == call_text(name@, words(a@)),
{
    if is(name, "texture") && a.len() == 2 {
        proof {
            reveal_strlit("texture");
            reveal_strlit("vec2");
            reveal_strlit("vec3");
            reveal_strlit("vec4");
            assert("texture"@.len() != "vec2"@.len());
        }
        let mut r: String = "textureSample(".to_owned();
        r.append(a[0].as_str());
        r.append(", ");
        r.append(a[0].as_str());
        r.append("_sampler, ");
        r.append(a[1].as_str());
        r.append(")");
        return r;
    }
    let mut r: String = if is(name, "vec2") {
        "vec2<f32>(".to_owned()
    } else if is(name, "vec3") {
        "vec3<f32>(".to_owned()
    } else if is(name, "vec4") {
        "vec4<f32>(".to_owned()
    } else {
        name.clone().concat("(")
    };
    r.append(join(a, ", ").as_str());
    r.append(")");
    r
}

fn pick(fields: &Vec<FieldInit>, values: &Vec<String>, name: &String) -> (r: Option<String>)
    requires
        values@.len() == fields@.len(),
    ensures
        match r {
            Some(s) => value_for(fields@, words(values@), fields@.len() as int, name@) == Some(s@),
            None => value_for(fields@, words(values@), fields@.len() as int, name@) is None,
        },
{
    let mut n: usize = fields.len();
    while n > 0
        invariant
            n <= fields@.len() == values@.len(),
            value_for(fields@, words(values@), fields@.len() as int, name@) == value_for(
                fields@,
                words(values@),
                n as int,
                name@,
            ),
        decreases n,
    {
        if fields[n - 1].name == *name {
            return Some(values[n - 1].clone());
        }
        n -= 1;
    }
    None
}

fn lower_struct(
    name: &String,
    fields: &Vec<FieldInit>,
    values: &Vec<String>,
    items: &Vec<Item>,
) -> (r: String)
    requires
        values@.len() == fields@.len(),
    ensures
        r@ == name@ + "("@ + joined(
            ordered(
                fields@,
                words(values@),
                declared(items@, items@.len() as int, name@),
            ),
            ", "@,
        ) + ")"@,
{
    let order = collect_structs(items, name);
    let mut args: Vec<String> = Vec::new();
    match &order {
        Some(names) => {
            let mut i: usize = 0;
            while i < names.len()
                invariant
                    i <= names@.len(),
                    values@.len() == fields@.len(),
                    args@.len() == i,
                    forall|k: int|
                        0 <= k < i ==> (#[trigger] args@[k])@ == (match value_for(
                            fields@,
                            words(values@),
                            fields@.len() as int,
                            names@[k]@,
                        ) {
                            Some(v) => v,
                            None => "0.0"@,
                        }),
                decreases names@.len() - i,
            {
                match pick(fields, values, &names[i]) {
                    Some(s) => args.push(s),
                    None => args.push("0.0".to_owned()),
                }
                i += 1;
            }
            assert(words(args@) =~= ordered(fields@, words(values@), Some(words(names@))));
        },
        None => {
            let mut i: usize = 0;
            while i < fields.len()
                invariant
                    i <= fields@.len() == values@.len(),
                    args@.len() == i,
                    forall|k: int|
                        0 <= k < i ==> (#[trigger] args@[k])@ == (match value_for(
                            fields@,
                            words(values@),
                            fields@.len() as int,
                            fields@[k].name@,
                        ) {
                            Some(v) => v,
                            None => Seq::empty(),
                        }),
                decreases fields@.len() - i,
            {
                match pick(fields, values, &fields[i].name) {
                    Some(s) => args.push(s),
                    None => args.push(String::new()),
                }
                i += 1;
            }
            assert(words(args@) =~= ordered(fields@, words(values@), None));
        },
    }
    let mut r: String = name.clone();
    r.append("(");
    r.append(join(&args, ", ").as_str());
    r.append(")");
    r
}

fn lower_stmt(s: &Stmt, items: &Vec<Item>) -> (r: String)
    ensures
        r@ == stmt_text(*s, items@),
{
    match s {
        Stmt::Let { name, init } => {
            let mut r: String = "    let ".to_owned();
            match name {
                Some(n) => r.append(n.as_str()),
                None => r.append("_"),
            }
            r.append(" = ");
            let v = match init {
                Some(e) => lower_expr(e, items),
                None => String::new(),
            };
            r.append(v.as_str());
            r.append(";\n");
            r
        },
        Stmt::Expr(e) => match e {
            Expr::Return(v) => {
                let mut r: String = "    return ".to_owned();
                let t = match v {
                    Some(x) => lower_expr(x, items),
                    None => String::new(),
                };
                r.append(t.as_str());
                r.append(";\n");
                r
            },
            _ => {
                let mut r: String = "    ".to_owned();
                r.append(lower_expr(e, items).as_str());
                r.append(";\n");
                r
            },
        },
        Stmt::Defer => String::new(),
    }
}

fn lower_block(b: &Block, items: &Vec<Item>, out: &mut String)
    ensures
        final(out)@ == old(out)@ + block_text(*b, items@),
{
    let ghost start = out@;
    let mut i: usize = 0;
    assert(out@ =~= start + stmts_text(b.stmts@, 0, items@));
    while i < b.stmts.len()
        invariant
            i <= b.stmts@.len(),
            out@ == start + stmts_text(b.stmts@, i as int, items@),
        decreases b.stmts@.len() - i,
    {
        out.append(lower_stmt(&b.stmts[i], items).as_str());
        i += 1;
        assert(out@ =~= start + stmts_text(b.stmts@, i as int, items@));
    }
    if let Some(e) = &b.tail {
        out.append("    return ");
        out.append(lower_expr(e, items).as_str());
        out.append(";\n");
    }
    assert(out@ =~= start + block_text(*b, items@));
}

fn lower_fn(stage: Stage, f: &FnDecl, items: &Vec<Item>) -> (r: String)
    ensures
        r@ == fn_text(stage, *f, items@),
{
    let mut params: Vec<String> = Vec::new();
    let mut i: usize = 0;
    assert(words(params@) =~= params_text(f.params@, 0));
    while i < f.params.len()
        invariant
            i <= f.params@.len(),
            words(params@) == params_text(f.params@, i as int),
        decreases f.params@.len() - i,
    {
        let ghost before = params@;
        if let Param::Normal { name, ty } = &f.params[i] {
            let mut p: String = name.clone();
            p.append(": ");
            p.append(ty_to_wgsl(ty).as_str());
            params.push(p);
            assert(words(params@) =~= words(before).push(p@));
        }
        i += 1;
    }
    let mut r: String = match stage {
        Stage::Vertex => "@vertex".to_owned(),
        Stage::Fragment => "@fragment".to_owned(),
        Stage::Compute => "@compute @workgroup_size(8, 8, 1)".to_owned(),
    };
    r.append("\nfn ");
    r.append(f.name.as_str());
    r.append("(");
    r.append(join(&params, ", ").as_str());
    r.append(") -> ");
    let ret = match &f.ret {
        Some(t) => {
            if stage == Stage::Fragment {
                "@location(0) ".to_owned().concat(ty_to_wgsl(t).as_str())
            } else {
                ty_to_wgsl(t)
            }
        },
        None => "()".to_owned(),
    };
    r.append(ret.as_str());
    r.append(" {\n");
    if let Some(b) = &f.body {
        lower_block(b, items, &mut r);
    }
    r.append("}\n");
    assert(r@ =~= fn_text(stage, *f, items@));
    r
}

fn lower_item_struct(item: &Item, out: &mut String)
    ensures
        final(out)@ == old(out)@ + struct_text(*item),
{
    let ghost start = out@;
    if let ItemKind::Struct(s) = &item.kind {
        if let Some(f) = &s.fields {
            out.append("struct ");
            out.append(s.name.as_str());
            out.append(" {\n");
            let ghost head = out@;
            let mut i: usize = 0;
            assert(out@ =~= head + fields_text(f@, 0));
            while i < f.len()
                invariant
                    i <= f@.len(),
                    out@ == head + fields_text(f@, i as int),
                decreases f@.len() - i,
            {
                out.append("    ");
                out.append(f[i].name.as_str());
                out.append(": ");
                out.append(ty_to_wgsl(&f[i].ty).as_str());
                out.append(",\n");
                i += 1;
                assert(out@ =~= head + fields_text(f@, i as int));
            }
            out.append("}\n\n");
        }
    }
    assert(out@ =~= start + struct_text(*item));
}

/// The WGSL text of a module: its structs, then every function marked with a stage.
pub fn lower_module(module: &Module) -> (r: String)
    ensures
        r@ == module_text(module.items@),
{
    let mut out: String = String::new();
    let items = &module.items;
    let mut i: usize = 0;
    assert(out@ =~= structs_text(items@, 0));
    while i < items.len()
        invariant
            i <= items@.len(),
            out@ == structs_text(items@, i as int),
        decreases items@.len() - i,
    {
        lower_item_struct(&items[i], &mut out);
        i += 1;
    }
    let ghost head = out@;
    let mut j: usize = 0;
    assert(out@ =~= head + entries_text(items@, 0));
    while j < items.len()
        invariant
            j <= items@.len(),
            out@ == head + entries_text(items@, j as int),
        decreases items@.len() - j,
    {
        if let Some(stage) = shader_stage(&items[j]) {
            if let ItemKind::Fn(f) = &items[j].kind {
                out.append(lower_fn(stage, f, items).as_str());
                out.append("\n");
            }
        }
        j += 1;
        assert(out@ =~= head + entries_text(items@, j as int));
    }
    out
}

/// The names of the fragment shaders, in the order of the source.
pub fn fragment_entries(module: &Module) -> (r: Vec<String>)
    ensures
        words(r@) == fragments(module.items@, module.items@.len() as int),
{
    let mut r: Vec<String> = Vec::new();
    let items = &module.items;
    let mut i: usize = 0;
    assert(words(r@) =~= fragments(items@, 0));
    while i < items.len()
        invariant
            i <= items@.len(),
            words(r@) == fragments(items@, i as int),
        decreases items@.len() - i,
    {
        let ghost before = r@;
        if let Some(stage) = shader_stage(&items[i]) {
            if stage == Stage::Fragment {
                if let ItemKind::Fn(f) = &items[i].kind {
                    r.push(f.name.clone());
                    assert(words(r@) =~= words(before).push(f.name@));
                }
            }
        }
        i += 1;
    }
    r
}

/// A function without a stage leaves no trace in a module's text.
pub proof fn law_unmarked_functions_are_ignored(items: Seq<Item>, i: int)
    requires
        0 <= i < items.len(),
        stage_of(items[i].attrs@) is None,
        items[i].kind is Fn,
    ensures
        struct_text(items[i]) == Seq::<char>::empty(),
        entry_text(items[i], items) == Seq::<char>::empty(),
{
}

/// The order in which a literal gives its fields does not matter where the struct
/// is declared: exchanging two of them, no two of the same name, changes nothing.
pub proof fn law_literal_order_does_not_matter(
    f: Seq<FieldInit>,
    v: Seq<Seq<char>>,
    i: int,
    j: int,
    names: Seq<Seq<char>>,
)
    requires
        v.len() == f.len(),
        0 <= i < j < f.len(),
        forall|a: int, b: int|
            0 <= a < b < f.len() ==> (#[trigger] f[a]).name@ != (#[trigger] f[b]).name@,
    ensures
        ordered(f, v, Some(names)) == ordered(
            f.update(i, f[j]).update(j, f[i]),
            v.update(i, v[j]).update(j, v[i]),
            Some(names),
        ),
{
    let g = f.update(i, f[j]).update(j, f[i]);
    let w = v.update(i, v[j]).update(j, v[i]);
    let n = f.len() as int;
    assert forall|a: int, b: int| 0 <= a < b < g.len() implies (#[trigger] g[a]).name@ != (
    #[trigger] g[b]).name@ by {
        let a2 = if a == i {
            j
        } else if a == j {
            i
        } else {
            a
        };
        let b2 = if b == i {
            j
        } else if b == j {
            i
        } else {
            b
        };
        assert(g[a] == f[a2] && g[b] == f[b2] && a2 != b2);
        if a2 < b2 {
            assert(f[a2].name@ != f[b2].name@);
        } else {
            assert(f[b2].name@ != f[a2].name@);
        }
    }
    assert forall|k: int| 0 <= k < names.len() implies value_for(f, v, n, #[trigger] names[k])
        == value_for(g, w, n, names[k]) by {
        let name = names[k];
        lemma_value_for(f, v, n, name);
        lemma_value_for(g, w, n, name);
        if exists|a: int| 0 <= a < n && (#[trigger] f[a]).name@ == name {
            let a = choose|a: int| 0 <= a < n && (#[trigger] f[a]).name@ == name;
            let b = if a == i {
                j
            } else if a == j {
                i
            } else {
                a
            };
            assert(g[b].name@ == name && w[b] == v[a]);
        } else if exists|b: int| 0 <= b < n && (#[trigger] g[b]).name@ == name {
            let b = choose|b: int| 0 <= b < n && (#[trigger] g[b]).name@ == name;
            let a = if b == i {
                j
            } else if b == j {
                i
            } else {
                b
            };
            assert(f[a].name@ == name);
        }
    }
    assert(ordered(f, v, Some(names)) =~= ordered(g, w, Some(names)));
}

/// With no name twice, the value for a name is that of the one field that has it.
proof fn lemma_value_for(f: Seq<FieldInit>, v: Seq<Seq<char>>, n: int, name: Seq<char>)
    requires
        v.len() == f.len(),
        0 <= n <= f.len(),
        forall|a: int, b: int|
            0 <= a < b < f.len() ==> (#[trigger] f[a]).name@ != (#[trigger] f[b]).name@,
    ensures
        forall|a: int|
            0 <= a < n && (#[trigger] f[a]).name@ == name ==> value_for(f, v, n, name) == Some(
                v[a],
            ),
        (forall|a: int| 0 <= a < n ==> (#[trigger] f[a]).name@ != name) ==> value_for(
            f,
            v,
            n,
            name,
        ) is None,
    decreases n,
{
    if n > 0 {
        lemma_value_for(f, v, n - 1, name);
        if f[n - 1].name@ == name {
            assert forall|a: int| 0 <= a < n && (#[trigger] f[a]).name@ == name implies a == n
                - 1 by {
                if a < n - 1 {
                    assert(f[a].name@ != f[n - 1].name@);
                }
            }
        }
    }
}

/// The characters of an operator: those of the operation in the shading language.
proof fn lemma_op_chars()
    ensures
        "+"@ =~= seq!['+'],
        "-"@ =~= seq!['-'],
        "*"@ =~= seq!['*'],
        "/"@ =~= seq!['/'],
        "%"@ =~= seq!['%'],
        "=="@ =~= seq!['=', '='],
        "!="@ =~= seq!['!', '='],
        "<"@ =~= seq!['<'],
        ">"@ =~= seq!['>'],
        "<="@ =~= seq!['<', '='],
        ">="@ =~= seq!['>', '='],
        "&&"@ =~= seq!['&', '&'],
        "||"@ =~= seq!['|', '|'],
{
    reveal_strlit("+");
    reveal_strlit("-");
    reveal_strlit("*");
    reveal_strlit("/");
    reveal_strlit("%");
    reveal_strlit("==");
    reveal_strlit("!=");
    reveal_strlit("<");
    reveal_strlit(">");
    reveal_strlit("<=");
    reveal_strlit(">=");
    reveal_strlit("&&");
    reveal_strlit("||");
}

/// Two operators have the same text only where they are the same.
pub proof fn law_operators_have_texts_of_their_own(p: BinOp, q: BinOp)
    ensures
        op_text(p) == op_text(q) <==> p == q,
{
    lemma_op_chars();
    let (s, t) = (op_text(p), op_text(q));
    if s == t && p != q {
        assert(s.len() == t.len() && s[0] == t[0] && s[s.len() - 1] == t[t.len() - 1]);
    }
}

/// An operation lowers to its operands in their order, with the operator between them
/// and round brackets about it. The arithmetic operators are the signs of arithmetic; a
/// comparison that also holds of equals is the strict one and an equals sign; both
/// connectives are a doubled sign.
pub proof fn law_operations_read_in_order(a: Box<Expr>, b: Box<Expr>, items: Seq<Item>)
    ensures
        ({
            let (x, y) = (expr_text(*a, items), expr_text(*b, items));
            let of = |op: BinOp| expr_text(Expr::Binary(op, a, b), items);
            &&& of(BinOp::Add) == seq!['('] + x + seq![' ', '+', ' '] + y + seq![')']
            &&& of(BinOp::Sub) == seq!['('] + x + seq![' ', '-', ' '] + y + seq![')']
            &&& of(BinOp::Mul) == seq!['('] + x + seq![' ', '*', ' '] + y + seq![')']
            &&& of(BinOp::Div) == seq!['('] + x + seq![' ', '/', ' '] + y + seq![')']
            &&& of(BinOp::Rem) == seq!['('] + x + seq![' ', '%', ' '] + y + seq![')']
            &&& of(BinOp::Eq) == seq!['('] + x + seq![' ', '=', '=', ' '] + y + seq![')']
            &&& of(BinOp::Ne) == seq!['('] + x + seq![' ', '!', '=', ' '] + y + seq![')']
            &&& of(BinOp::Lt) == seq!['('] + x + seq![' ', '<', ' '] + y + seq![')']
            &&& of(BinOp::Le) == seq!['('] + x + seq![' ', '<', '=', ' '] + y + seq![')']
            &&& of(BinOp::Gt) == seq!['('] + x + seq![' ', '>', ' '] + y + seq![')']
            &&& of(BinOp::Ge) == seq!['('] + x + seq![' ', '>', '=', ' '] + y + seq![')']
            &&& of(BinOp::And) == seq!['('] + x + seq![' ', '&', '&', ' '] + y + seq![')']
            &&& of(BinOp::Or) == seq!['('] + x + seq![' ', '|', '|', ' '] + y + seq![')']
        }),
        op_text(BinOp::Le) == op_text(BinOp::Lt) + op_text(BinOp::Eq).drop_first(),
        op_text(BinOp::Ge) == op_text(BinOp::Gt) + op_text(BinOp::Eq).drop_first(),
        op_text(BinOp::Ne).drop_first() == op_text(BinOp::Eq).drop_first(),
{
    lemma_op_chars();
    lemma_marks();
    let (x, y) = (expr_text(*a, items), expr_text(*b, items));
    lemma_between(x, op_text(BinOp::Add), y);
    lemma_between(x, op_text(BinOp::Sub), y);
    lemma_between(x, op_text(BinOp::Mul), y);
    lemma_between(x, op_text(BinOp::Div), y);
    lemma_between(x, op_text(BinOp::Rem), y);
    lemma_between(x, op_text(BinOp::Eq), y);
    lemma_between(x, op_text(BinOp::Ne), y);
    lemma_between(x, op_text(BinOp::Lt), y);
    lemma_between(x, op_text(BinOp::Le), y);
    lemma_between(x, op_text(BinOp::Gt), y);
    lemma_between(x, op_text(BinOp::Ge), y);
    lemma_between(x, op_text(BinOp::And), y);
    lemma_between(x, op_text(BinOp::Or), y);
    assert(seq![' '] + seq!['+'] + seq![' '] =~= seq![' ', '+', ' ']);
    assert(seq![' '] + seq!['-'] + seq![' '] =~= seq![' ', '-', ' ']);
    assert(seq![' '] + seq!['*'] + seq![' '] =~= seq![' ', '*', ' ']);
    assert(seq![' '] + seq!['/'] + seq![' '] =~= seq![' ', '/', ' ']);
    assert(seq![' '] + seq!['%'] + seq![' '] =~= seq![' ', '%', ' ']);
    assert(seq![' '] + seq!['<'] + seq![' '] =~= seq![' ', '<', ' ']);
    assert(seq![' '] + seq!['>'] + seq![' '] =~= seq![' ', '>', ' ']);
    assert(seq![' '] + seq!['=', '='] + seq![' '] =~= seq![' ', '=', '=', ' ']);
    assert(seq![' '] + seq!['!', '='] + seq![' '] =~= seq![' ', '!', '=', ' ']);
    assert(seq![' '] + seq!['<', '='] + seq![' '] =~= seq![' ', '<', '=', ' ']);
    assert(seq![' '] + seq!['>', '='] + seq![' '] =~= seq![' ', '>', '=', ' ']);
    assert(seq![' '] + seq!['&', '&'] + seq![' '] =~= seq![' ', '&', '&', ' ']);
    assert(seq![' '] + seq!['|', '|'] + seq![' '] =~= seq![' ', '|', '|', ' ']);
}

/// The characters of the marks between the parts of an expression.
proof fn lemma_marks()
    ensures
        "("@ =~= seq!['('],
        ")"@ =~= seq![')'],
        " "@ =~= seq![' '],
        "."@ =~= seq!['.'],
        "!"@ =~= seq!['!'],
        ", "@ =~= seq![',', ' '],
        ".0"@ =~= seq!['.', '0'],
{
    reveal_strlit("(");
    reveal_strlit(")");
    reveal_strlit(" ");
    reveal_strlit(".");
    reveal_strlit("!");
    reveal_strlit(", ");
    reveal_strlit(".0");
}

proof fn lemma_between(x: Seq<char>, op: Seq<char>, y: Seq<char>)
    ensures
        seq!['('] + x + seq![' '] + op + seq![' '] + y + seq![')'] == seq!['('] + x + (seq![' ']
            + op + seq![' ']) + y + seq![')'],
{
    assert(seq!['('] + x + seq![' '] + op + seq![' '] =~= seq!['('] + x + (seq![' '] + op + seq![
        ' ',
    ]));
}

/// A sign stands before what it negates, brackets stand about what they hold, and a
/// field follows its base after a point. A whole float gets a point and a zero.
pub proof fn law_parts_read_in_order(x: Box<Expr>, n: String, digits: String, items: Seq<Item>)
    ensures
        expr_text(Expr::Unary(UnOp::Neg, x), items) == seq!['-'] + expr_text(*x, items),
        expr_text(Expr::Unary(UnOp::Not, x), items) == seq!['!'] + expr_text(*x, items),
        expr_text(Expr::Unary(UnOp::Other, x), items) == expr_text(*x, items),
        expr_text(Expr::Paren(x), items) == seq!['('] + expr_text(*x, items) + seq![')'],
        expr_text(Expr::Field { base: x, field: FieldAccess::Named(n) }, items) == expr_text(
            *x,
            items,
        ) + seq!['.'] + n@,
        is_whole(digits@) ==> expr_text(Expr::Float(digits), items) == digits@ + seq!['.', '0'],
        !is_whole(digits@) ==> expr_text(Expr::Float(digits), items) == digits@,
        expr_text(Expr::Bool(true), items) == seq!['t', 'r', 'u', 'e'],
        expr_text(Expr::Bool(false), items) == seq!['f', 'a', 'l', 's', 'e'],
{
    lemma_marks();
    lemma_op_chars();
    reveal_strlit("true");
    reveal_strlit("false");
    assert("true"@ =~= seq!['t', 'r', 'u', 'e']);
    assert("false"@ =~= seq!['f', 'a', 'l', 's', 'e']);
}

/// The characters of the types' names.
proof fn lemma_type_chars()
    ensures
        "f32"@ =~= seq!['f', '3', '2'],
        "f64"@ =~= seq!['f', '6', '4'],
        "i32"@ =~= seq!['i', '3', '2'],
        "i64"@ =~= seq!['i', '6', '4'],
        "u32"@ =~= seq!['u', '3', '2'],
        "u64"@ =~= seq!['u', '6', '4'],
        "bool"@ =~= seq!['b', 'o', 'o', 'l'],
        "Vec2"@ =~= seq!['V', 'e', 'c', '2'],
        "Vec3"@ =~= seq!['V', 'e', 'c', '3'],
        "Vec4"@ =~= seq!['V', 'e', 'c', '4'],
        "Mat3"@ =~= seq!['M', 'a', 't', '3'],
        "Mat4"@ =~= seq!['M', 'a', 't', '4'],
        "Color"@ =~= seq!['C', 'o', 'l', 'o', 'r'],
        "vec2<f32>"@ =~= seq!['v', 'e', 'c', '2', '<', 'f', '3', '2', '>'],
        "vec3<f32>"@ =~= seq!['v', 'e', 'c', '3', '<', 'f', '3', '2', '>'],
        "vec4<f32>"@ =~= seq!['v', 'e', 'c', '4', '<', 'f', '3', '2', '>'],
        "mat3x3<f32>"@ =~= seq!['m', 'a', 't', '3', 'x', '3', '<', 'f', '3', '2', '>'],
        "mat4x4<f32>"@ =~= seq!['m', 'a', 't', '4', 'x', '4', '<', 'f', '3', '2', '>'],
{
    reveal_strlit("f32");
    reveal_strlit("f64");
    reveal_strlit("i32");
    reveal_strlit("i64");
    reveal_strlit("u32");
    reveal_strlit("u64");
    reveal_strlit("bool");
    reveal_strlit("Vec2");
    reveal_strlit("Vec3");
    reveal_strlit("Vec4");
    reveal_strlit("Mat3");
    reveal_strlit("Mat4");
    reveal_strlit("Color");
    reveal_strlit("vec2<f32>");
    reveal_strlit("vec3<f32>");
    reveal_strlit("vec4<f32>");
    reveal_strlit("mat3x3<f32>");
    reveal_strlit("mat4x4<f32>");
}

/// A number type keeps its kind and has 32 bits; a vector keeps its dimension and a
/// matrix its order, both of floats; a colour is a vector of four. Every other name
/// stays as it is, and a type without a name is a float.
pub proof fn law_types_keep_their_shape(p: Vec<String>, c: char)
    ensures
        ({
            let n = last_name(p@);
            let t = ty_text(Type::Path(p));
            &&& (c == 'f' || c == 'i' || c == 'u') && (n == seq![c, '3', '2'] || n == seq![
                c,
                '6',
                '4',
            ]) ==> t == seq![c, '3', '2']
            &&& (c == '2' || c == '3' || c == '4') && n == seq!['V', 'e', 'c', c] ==> t == seq![
                'v',
                'e',
                'c',
                c,
                '<',
                'f',
                '3',
                '2',
                '>',
            ]
            &&& (c == '3' || c == '4') && n == seq!['M', 'a', 't', c] ==> t == seq![
                'm',
                'a',
                't',
                c,
                'x',
                c,
                '<',
                'f',
                '3',
                '2',
                '>',
            ]
            &&& n == "Color"@ ==> t == seq!['v', 'e', 'c', '4', '<', 'f', '3', '2', '>']
            &&& n == "bool"@ ==> t == n
            &&& n != "f64"@ && n != "i64"@ && n != "u64"@ && n != "Vec2"@ && n != "Vec3"@ && n
                != "Vec4"@ && n != "Color"@ && n != "Mat3"@ && n != "Mat4"@ ==> t == n
            &&& ty_text(Type::Other) == seq!['f', '3', '2']
        }),
{
    lemma_type_chars();
    let n = last_name(p@);
    if (c == 'f' || c == 'i' || c == 'u') && (n == seq![c, '3', '2'] || n == seq![c, '6', '4']) {
        assert(n.len() == 3 && n[0] == c);
    }
    if (c == '2' || c == '3' || c == '4') && n == seq!['V', 'e', 'c', c] {
        assert(n.len() == 4 && n[0] == 'V' && n[3] == c);
    }
    if (c == '3' || c == '4') && n == seq!['M', 'a', 't', c] {
        assert(n.len() == 4 && n[0] == 'M' && n[3] == c);
    }
    if n == "Color"@ {
        assert(n.len() == 5);
    }
    if n == "bool"@ {
        assert(n.len() == 4 && n[0] == 'b');
    }
}

/// A stage's text is an at sign and the attribute that marks it; a compute stage also
/// says the size of its groups. Every other attribute marks no stage.
pub proof fn law_stages_are_marked_by_their_attribute(a: Seq<char>)
    ensures
        match stage_of_attr(a) {
            Some(s) => {
                let t = stage_text(s);
                &&& a.len() < t.len()
                &&& t.subrange(0, a.len() as int + 1) == seq!['@'] + a
                &&& s != Stage::Compute ==> t.len() == a.len() + 1
                &&& s == Stage::Compute ==> t.skip(a.len() as int + 1) == " @workgroup_size(8, 8, 1)"@
            },
            None => a != "vertex"@ && a != "fragment"@ && a != "compute"@,
        },
        stage_of_attr("vertex"@) == Some(Stage::Vertex),
        stage_of_attr("fragment"@) == Some(Stage::Fragment),
        stage_of_attr("compute"@) == Some(Stage::Compute),
{
    reveal_strlit("vertex");
    reveal_strlit("fragment");
    reveal_strlit("compute");
    reveal_strlit("@vertex");
    reveal_strlit("@fragment");
    reveal_strlit("@compute @workgroup_size(8, 8, 1)");
    reveal_strlit(" @workgroup_size(8, 8, 1)");
    assert("vertex"@.len() == 6 && "fragment"@.len() == 8 && "compute"@.len() == 7);
    if let Some(s) = stage_of_attr(a) {
        let t = stage_text(s);
        assert(t.subrange(0, a.len() as int + 1) =~= seq!['@'] + a);
        if s == Stage::Compute {
            assert(t.skip(a.len() as int + 1) =~= " @workgroup_size(8, 8, 1)"@);
        }
    }
}

/// The first attribute that marks a stage decides.
pub proof fn law_the_first_mark_counts(attrs: Seq<String>, i: int)
    requires
        0 <= i < attrs.len(),
        stage_of_attr(attrs[i]@) is Some,
        forall|k: int| 0 <= k < i ==> stage_of_attr((#[trigger] attrs[k])@) is None,
    ensures
        stage_of(attrs) == stage_of_attr(attrs[i]@),
    decreases i,
{
    if i > 0 {
        assert(stage_of_attr(attrs[0]@) is None);
        let rest = attrs.drop_first();
        assert forall|k: int| 0 <= k < i - 1 implies stage_of_attr(
            (#[trigger] rest[k])@,
        ) is None by {
            assert(rest[k] == attrs[k + 1]);
        }
        law_the_first_mark_counts(rest, i - 1);
    }
}

/// Joined lists stand one after the other, with the separator between them.
pub proof fn law_lists_join_in_order(a: Seq<Seq<char>>, b: Seq<Seq<char>>, sep: Seq<char>)
    requires
        a.len() > 0,
        b.len() > 0,
    ensures
        joined(a + b, sep) == joined(a, sep) + sep + joined(b, sep),
    decreases b.len(),
{
    let all = a + b;
    assert(all.last() == b.last());
    if b.len() == 1 {
        assert(all.drop_last() =~= a);
    } else {
        assert(all.drop_last() =~= a + b.drop_last());
        law_lists_join_in_order(a, b.drop_last(), sep);
        assert(joined(all, sep) =~= joined(a, sep) + sep + joined(b, sep));
    }
}

/// A vector is made from floats and keeps its dimension; a texture is sampled at its
/// second argument with the sampler named after it; every other call keeps its name.
/// The arguments stand in order, with a comma and a space between them.
pub proof fn law_calls_keep_their_arguments(name: Seq<char>, args: Seq<Seq<char>>, c: char)
    ensures
        ({
            let list = joined(args, seq![',', ' ']);
            let t = call_text(name, args);
            &&& (c == '2' || c == '3' || c == '4') && name == seq!['v', 'e', 'c', c] ==> t == seq![
                'v',
                'e',
                'c',
                c,
                '<',
                'f',
                '3',
                '2',
                '>',
                '(',
            ] + list + seq![')']
            &&& name == "texture"@ && args.len() == 2 ==> t == "textureSample("@ + args[0]
                + seq![',', ' '] + args[0] + "_sampler, "@ + args[1] + seq![')']
            &&& name != "texture"@ && name != "vec2"@ && name != "vec3"@ && name != "vec4"@ ==> t
                == name + seq!['('] + list + seq![')']
            &&& name == "texture"@ && args.len() != 2 ==> t == name + seq!['('] + list + seq![
                ')',
            ]
        }),
{
    lemma_marks();
    reveal_strlit("vec2");
    reveal_strlit("vec3");
    reveal_strlit("vec4");
    reveal_strlit("texture");
    reveal_strlit("vec2<f32>(");
    reveal_strlit("vec3<f32>(");
    reveal_strlit("vec4<f32>(");
    let v = seq!['v', 'e', 'c', c, '<', 'f', '3', '2', '>', '('];
    if (c == '2' || c == '3' || c == '4') && name == seq!['v', 'e', 'c', c] {
        assert(name[3] == c && name.len() == 4);
        if c == '2' {
            assert(name =~= "vec2"@);
            assert(v =~= "vec2<f32>("@);
        } else if c == '3' {
            assert(name =~= "vec3"@);
            assert(v =~= "vec3<f32>("@);
        } else {
            assert(name =~= "vec4"@);
            assert(v =~= "vec4<f32>("@);
        }
    }
    assert("vec2"@.len() == 4 && "vec3"@.len() == 4 && "vec4"@.len() == 4);
    assert("texture"@.len() == 7);
}

/// The names of the fragment shaders are those of the functions so marked: every such
/// function is listed, and nothing else is.
pub proof fn law_fragments_are_the_marked_functions(items: Seq<Item>, n: int, name: Seq<char>)
    requires
        0 <= n <= items.len(),
    ensures
        fragments(items, n).contains(name) <==> exists|i: int|
            0 <= i < n && stage_of((#[trigger] items[i]).attrs@) == Some(Stage::Fragment) && (
            items[i].kind matches ItemKind::Fn(f) && f.name@ == name),
    decreases n,
{
    if n > 0 {
        law_fragments_are_the_marked_functions(items, n - 1, name);
        let (all, less) = (fragments(items, n), fragments(items, n - 1));
        if less.contains(name) {
            let k = choose|k: int| 0 <= k < less.len() && less[k] == name;
            assert(all[k] == name);
        }
        if all.contains(name) {
            let k = choose|k: int| 0 <= k < all.len() && all[k] == name;
            if k < less.len() {
                assert(less[k] == name);
            } else {
                assert(stage_of(items[n - 1].attrs@) == Some(Stage::Fragment));
            }
        }
        if stage_of(items[n - 1].attrs@) == Some(Stage::Fragment) {
            if let ItemKind::Fn(f) = items[n - 1].kind {
                assert(all[all.len() - 1] == f.name@);
            }
        }
    }
}

/// Where a struct is declared more than once, the last declaration counts.
pub proof fn law_the_last_declaration_counts(items: Seq<Item>, n: int, i: int, name: Seq<char>)
    requires
        0 <= i < n <= items.len(),
        items[i].kind matches ItemKind::Struct(s) && s.name@ == name && s.fields is Some,
        forall|k: int|
            i < k < n ==> !((#[trigger] items[k]).kind matches ItemKind::Struct(s) && s.name@
                == name && s.fields is Some),
    ensures
        items[i].kind matches ItemKind::Struct(s) && s.fields matches Some(f) && declared(
            items,
            n,
            name,
        ) == Some(field_names(f@)),
    decreases n,
{
    if i < n - 1 {
        law_the_last_declaration_counts(items, n - 1, i, name);
        assert(!(items[n - 1].kind matches ItemKind::Struct(s) && s.name@ == name && s.fields
            is Some));
    }
}

/// A constructor has one argument for every declared field, in the order of the
/// declaration: what the literal gives the field of that name, or zero. Without a
/// declaration it has those of the literal.
pub proof fn law_constructors_follow_the_declaration(
    f: Seq<FieldInit>,
    v: Seq<Seq<char>>,
    names: Seq<Seq<char>>,
    i: int,
    a: int,
)
    requires
        v.len() == f.len(),
        0 <= i < names.len(),
        0 <= a < f.len(),
    ensures
        ordered(f, v, Some(names)).len() == names.len(),
        f[a].name@ == names[i] && (forall|b: int|
            a < b < f.len() ==> (#[trigger] f[b]).name@ != names[i]) ==> ordered(
            f,
            v,
            Some(names),
        )[i] == v[a],
        (forall|b: int| 0 <= b < f.len() ==> (#[trigger] f[b]).name@ != names[i]) ==> ordered(
            f,
            v,
            Some(names),
        )[i] == seq!['0', '.', '0'],
        ordered(f, v, None).len() == f.len(),
        (forall|b: int| a < b < f.len() ==> (#[trigger] f[b]).name@ != f[a].name@) ==> ordered(
            f,
            v,
            None,
        )[a] == v[a],
{
    reveal_strlit("0.0");
    assert("0.0"@ =~= seq!['0', '.', '0']);
    lemma_last_value(f, v, f.len() as int, names[i], a);
    lemma_last_value(f, v, f.len() as int, f[a].name@, a);
}

proof fn lemma_last_value(f: Seq<FieldInit>, v: Seq<Seq<char>>, n: int, name: Seq<char>, a: int)
    requires
        v.len() == f.len(),
        0 <= n <= f.len(),
        0 <= a,
    ensures
        a < n && f[a].name@ == name && (forall|b: int|
            a < b < n ==> (#[trigger] f[b]).name@ != name) ==> value_for(f, v, n, name) == Some(
            v[a],
        ),
        (forall|b: int| 0 <= b < n ==> (#[trigger] f[b]).name@ != name) ==> value_for(
            f,
            v,
            n,
            name,
        ) is None,
    decreases n,
{
    if n > 0 {
        lemma_last_value(f, v, n - 1, name, a);
    }
}

/// A stage function returns the type it names, a fragment function at the first
/// location; one that names none returns nothing.
pub proof fn law_only_fragments_have_a_location(t: Type, s: Stage)
    ensures
        ret_text(Some(t), Stage::Fragment) == "@location(0) "@ + ty_text(t),
        s != Stage::Fragment ==> ret_text(Some(t), s) == ty_text(t),
        ret_text(None, s) == seq!['(', ')'],
{
    reveal_strlit("()");
    assert("()"@ =~= seq!['(', ')']);
}

/// The receiver is no parameter of a stage function. Every other one is, in order, by
/// its name and the name of its type.
pub proof fn law_receivers_are_left_out(p: Seq<Param>, n: int)
    requires
        0 <= n < p.len(),
    ensures
        match p[n] {
            Param::SelfParam => params_text(p, n + 1) == params_text(p, n),
            Param::Normal { name, ty } => params_text(p, n + 1) == params_text(p, n).push(
                name@ + seq![':', ' '] + ty_text(ty),
            ),
        },
{
    reveal_strlit(": ");
    assert(": "@ =~= seq![':', ' ']);
}

/// A binding gives a name the value of its expression, a return and what a block
/// evaluates to lower alike, and a deferred statement leaves no trace.
pub proof fn law_statements_read_as_written(x: Box<Expr>, e: Expr, n: String, items: Seq<Item>)
    ensures
        stmt_text(Stmt::Let { name: Some(n), init: Some(e) }, items) == "    let "@ + n@ + seq![
            ' ',
            '=',
            ' ',
        ] + expr_text(e, items) + seq![';', '\n'],
        stmt_text(Stmt::Expr(Expr::Return(Some(x))), items) == "    return "@ + expr_text(
            *x,
            items,
        ) + seq![';', '\n'],
        e !is Return ==> stmt_text(Stmt::Expr(e), items) == seq![' ', ' ', ' ', ' '] + expr_text(
            e,
            items,
        ) + seq![';', '\n'],
        stmt_text(Stmt::Let { name: None, init: None }, items) == "    let "@ + seq!['_'] + seq![
            ' ',
            '=',
            ' ',
        ] + seq![';', '\n'],
        stmt_text(Stmt::Defer, items) == Seq::<char>::empty(),
        forall|b: Block|
            b.tail == Some(*x) ==> #[trigger] block_text(b, items) == stmts_text(
                b.stmts@,
                b.stmts@.len() as int,
                items,
            ) + stmt_text(Stmt::Expr(Expr::Return(Some(x))), items),
{
    reveal_strlit(" = ");
    reveal_strlit(";\n");
    reveal_strlit("    ");
    reveal_strlit("_");
    assert("_"@ =~= seq!['_']);
    assert("    let "@ + "_"@ + " = "@ + Seq::<char>::empty() =~= "    let "@ + "_"@ + " = "@);
    assert(" = "@ =~= seq![' ', '=', ' ']);
    assert(";\n"@ =~= seq![';', '\n']);
    assert("    "@ =~= seq![' ', ' ', ' ', ' ']);
}

/// A path is its names with points between them, and a literal the name of its struct with
/// its arguments in brackets. What the shading language has no words for is left as a
/// remark.
pub proof fn law_paths_read_in_order(p: Vec<String>, fields: Vec<FieldInit>, items: Seq<Item>)
    ensures
        p@.len() == 1 ==> expr_text(Expr::Path(p), items) == p@[0]@,
        p@.len() == 2 ==> expr_text(Expr::Path(p), items) == p@[0]@ + seq!['.'] + p@[1]@,
        p@.len() > 0 ==> last_name(p@) == p@[p@.len() - 1]@,
        p@.len() == 0 ==> last_name(p@) == Seq::<char>::empty(),
        expr_text(Expr::Struct { path: p, fields }, items) == last_name(p@) + seq!['('] + joined(
            ordered(
                fields@,
                inits_text(fields@, fields@.len() as int, items),
                declared(items, items.len() as int, last_name(p@)),
            ),
            seq![',', ' '],
        ) + seq![')'],
        expr_text(Expr::Other, items) == expr_text(Expr::Return(None), items),
        expr_text(Expr::Other, items) == "/* unsupported */"@,
{
    lemma_marks();
    reveal_with_fuel(joined, 2);
    let w = words(p@);
    if p@.len() == 2 {
        assert(w.drop_last().len() == 1 && w.drop_last()[0] == p@[0]@);
        assert(w.last() == p@[1]@);
    }
}

/// The arguments of a call and the values of a literal are lowered in their order; a field
/// without a value takes the variable of its own name.
pub proof fn law_arguments_keep_their_order(
    args: Seq<Expr>,
    fields: Seq<FieldInit>,
    n: int,
    i: int,
    items: Seq<Item>,
)
    requires
        0 <= i < n,
    ensures
        n <= args.len() ==> args_text(args, n, items).len() == n && args_text(args, n, items)[i]
            == expr_text(args[i], items),
        n <= fields.len() ==> inits_text(fields, n, items).len() == n && inits_text(
            fields,
            n,
            items,
        )[i] == (match fields[i].value {
            Some(e) => expr_text(e, items),
            None => fields[i].name@,
        }),
    decreases n,
{
    if n <= args.len() {
        lemma_args_count(args, n - 1, items);
    }
    if n <= fields.len() {
        lemma_inits_count(fields, n - 1, items);
    }
    if i < n - 1 {
        law_arguments_keep_their_order(args, fields, n - 1, i, items);
    }
}

proof fn lemma_args_count(args: Seq<Expr>, n: int, items: Seq<Item>)
    requires
        0 <= n <= args.len(),
    ensures
        args_text(args, n, items).len() == n,
    decreases n,
{
    if n > 0 {
        lemma_args_count(args, n - 1, items);
    }
}

proof fn lemma_inits_count(fields: Seq<FieldInit>, n: int, items: Seq<Item>)
    requires
        0 <= n <= fields.len(),
    ensures
        inits_text(fields, n, items).len() == n,
    decreases n,
{
    if n > 0 {
        lemma_inits_count(fields, n - 1, items);
    }
}

/// A struct is written field by field in the order of its declaration, each with its type;
/// a module's structs stand before its stage functions, both in the order of the source.
pub proof fn law_items_are_written_in_order(items: Seq<Item>, f: Seq<Field>, n: int)
    requires
        0 <= n,
    ensures
        n < f.len() ==> fields_text(f, n + 1) == fields_text(f, n) + seq![' ', ' ', ' ', ' ']
            + f[n].name@ + seq![':', ' '] + ty_text(f[n].ty) + seq![',', '\n'],
        n < items.len() ==> structs_text(items, n + 1) == structs_text(items, n) + struct_text(
            items[n],
        ) && entries_text(items, n + 1) == entries_text(items, n) + entry_text(items[n], items),
        module_text(items) == structs_text(items, items.len() as int) + entries_text(
            items,
            items.len() as int,
        ),
        structs_text(items, 0) == Seq::<char>::empty(),
        entries_text(items, 0) == Seq::<char>::empty(),
{
    reveal_strlit("    ");
    reveal_strlit(": ");
    reveal_strlit(",\n");
    assert("    "@ =~= seq![' ', ' ', ' ', ' ']);
    assert(": "@ =~= seq![':', ' ']);
    assert(",\n"@ =~= seq![',', '\n']);
    if n < f.len() {
        assert(fields_text(f, n + 1) =~= fields_text(f, n) + seq![' ', ' ', ' ', ' '] + f[n].name@
            + seq![':', ' '] + ty_text(f[n].ty) + seq![',', '\n']);
    }
}

/// A stage function is its mark, its name, its parameters, what it returns and its body, in
/// this order.
pub proof fn law_functions_read_in_order(stage: Stage, f: FnDecl, items: Seq<Item>)
    ensures
        fn_text(stage, f, items) == stage_text(stage) + seq!['\n', 'f', 'n', ' '] + f.name@ + seq![
            '(',
        ] + joined(params_text(f.params@, f.params@.len() as int), seq![',', ' ']) + seq![
            ')',
            ' ',
            '-',
            '>',
            ' ',
        ] + ret_text(f.ret, stage) + seq![' ', '{', '\n'] + (match f.body {
            Some(b) => block_text(b, items),
            None => Seq::empty(),
        }) + seq!['}', '\n'],
{
    lemma_marks();
    reveal_strlit("\nfn ");
    reveal_strlit(") -> ");
    reveal_strlit(" {\n");
    reveal_strlit("}\n");
    assert("\nfn "@ =~= seq!['\n', 'f', 'n', ' ']);
    assert(") -> "@ =~= seq![')', ' ', '-', '>', ' ']);
    assert(" {\n"@ =~= seq![' ', '{', '\n']);
    assert("}\n"@ =~= seq!['}', '\n']);
}

/// A struct is its name and its fields between braces; an item that is neither a struct
/// with named fields nor a marked function is not written.
pub proof fn law_structs_read_in_order(item: Item, s: StructDecl, f: Vec<Field>, items: Seq<Item>)
    ensures
        item.kind == ItemKind::Struct(s) && s.fields == Some(f) ==> struct_text(item) == "struct "@
            + s.name@ + seq![' ', '{', '\n'] + fields_text(f@, f@.len() as int) + seq![
            '}',
            '\n',
            '\n',
        ],
        item.kind !is Struct ==> struct_text(item) == Seq::<char>::empty(),
        item.kind !is Fn ==> entry_text(item, items) == Seq::<char>::empty(),
        item.kind matches ItemKind::Fn(g) ==> (stage_of(item.attrs@) matches Some(stage)
            ==> entry_text(item, items) == fn_text(stage, g, items) + seq!['\n']),
{
    reveal_strlit(" {\n");
    reveal_strlit("}\n\n");
    reveal_strlit("\n");
    assert(" {\n"@ =~= seq![' ', '{', '\n']);
    assert("}\n\n"@ =~= seq!['}', '\n', '\n']);
    assert("\n"@ =~= seq!['\n']);
}

/// What is told of names is all of them, in their order.
pub proof fn law_names_are_told_whole(v: Seq<String>, f: Seq<Field>, i: int)
    requires
        i >= 0,
    ensures
        words(v).len() == v.len(),
        i < v.len() ==> words(v)[i] == v[i]@,
        field_names(f).len() == f.len(),
        i < f.len() ==> field_names(f)[i] == f[i].name@,
{
}

} // verus!
