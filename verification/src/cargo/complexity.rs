//! The Rust frontend's complexity rules: which items are scored, how
//! methods are named, which constructs are decisions, and the rows that a
//! parsed source file yields.
use crate::cargo::error::Error;
use crate::merge::FunctionComplexity;
use crate::text::{concat, owned};
use vstd::prelude::*;

verus! {

/// A `cfg` predicate as written: a bare path, a list such as `all(..)`
/// with its items (none when the items do not read as predicates), or
/// anything else.
pub enum CfgMeta {
    /// A path; its text when it is one plain identifier.
    Path(Option<String>),
    /// `name(items)`; the name when it is one plain identifier.
    List(Option<String>, Vec<CfgMeta>),
    /// `name = value` and other forms.
    Other,
}

/// The identifier of a path, when it is one.
pub open spec fn ident_text(o: Option<String>) -> Option<Seq<char>> {
    match o {
        Some(s) => Some(s@),
        None => None,
    }
}

/// Whether a `cfg` predicate holds only in test builds: `test` itself,
/// `all(..)` with a test-only item, or `any(..)` whose items are all
/// test-only (and there is at least one).
pub open spec fn test_only(m: CfgMeta) -> bool
    decreases m, 1int,
{
    match m {
        CfgMeta::Path(id) => ident_text(id) == Some("test"@),
        CfgMeta::List(id, items) => if ident_text(id) == Some("all"@) {
            some_test_only(items@, items@.len() as int)
        } else if ident_text(id) == Some("any"@) {
            items@.len() > 0 && all_test_only(items@, items@.len() as int)
        } else {
            false
        },
        CfgMeta::Other => false,
    }
}

/// Some of the first `n` items is test-only.
pub open spec fn some_test_only(items: Seq<CfgMeta>, n: int) -> bool
    decreases items, 0int, n,
{
    if n <= 0 || n > items.len() {
        false
    } else {
        some_test_only(items, n - 1) || test_only(items[n - 1])
    }
}

/// Each of the first `n` items is test-only.
pub open spec fn all_test_only(items: Seq<CfgMeta>, n: int) -> bool
    decreases items, 0int, n,
{
    if n <= 0 || n > items.len() {
        true
    } else {
        all_test_only(items, n - 1) && test_only(items[n - 1])
    }
}

proof fn lemma_item_smaller(meta: CfgMeta, k: int)
    requires
        meta matches CfgMeta::List(_, items) && 0 <= k < items@.len(),
    ensures
        meta matches CfgMeta::List(_, items) && decreases_to!(meta => items@[k]),
{
    if let CfgMeta::List(id, items) = meta {
        assert(decreases_to!(meta => items));
        assert(decreases_to!(items => items@));
        assert(decreases_to!(items@ => items@[k]));
    }
}

/// A test-only item among the first `n` makes some of them test-only.
proof fn lemma_some_from(items: Seq<CfgMeta>, k: int, n: int)
    requires
        0 <= k < n <= items.len(),
        test_only(items[k]),
    ensures
        some_test_only(items, n),
    decreases n,
{
    if k < n - 1 {
        lemma_some_from(items, k, n - 1);
    }
}

/// An item that is not test-only among the first `n` breaks "all".
proof fn lemma_not_all_from(items: Seq<CfgMeta>, k: int, n: int)
    requires
        0 <= k < n <= items.len(),
        !test_only(items[k]),
    ensures
        !all_test_only(items, n),
    decreases n,
{
    if k < n - 1 {
        lemma_not_all_from(items, k, n - 1);
    }
}

fn ident_is(id: &Option<String>, word: &str) -> (r: bool)
    ensures
        r == (ident_text(*id) == Some(word@)),
{
    match id {
        Some(s) => crate::text::str_eq(s.as_str(), word),
        None => false,
    }
}

/// Whether a `cfg` predicate holds only in test builds.
pub fn cfg_is_test_only(meta: &CfgMeta) -> (r: bool)
    ensures
        r == test_only(*meta),
    decreases *meta,
{
    match meta {
        CfgMeta::Path(id) => ident_is(id, "test"),
        CfgMeta::List(id, items) => {
            if ident_is(id, "all") {
                let mut k: usize = 0;
                while k < items.len()
                    invariant
                        k <= items@.len(),
                        *meta == CfgMeta::List(*id, *items),
                        ident_text(*id) == Some("all"@),
                        !some_test_only(items@, k as int),
                    decreases items.len() - k,
                {
                    proof {
                        lemma_item_smaller(*meta, k as int);
                    }
                    if cfg_is_test_only(&items[k]) {
                        proof {
                            lemma_some_from(items@, k as int, items@.len() as int);
                        }
                        return true;
                    }
                    k = k + 1;
                }
                false
            } else if ident_is(id, "any") {
                if items.len() == 0 {
                    return false;
                }
                let mut k: usize = 0;
                while k < items.len()
                    invariant
                        k <= items@.len(),
                        *meta == CfgMeta::List(*id, *items),
                        ident_text(*id) == Some("any"@),
                        ident_text(*id) != Some("all"@),
                        items@.len() > 0,
                        all_test_only(items@, k as int),
                    decreases items.len() - k,
                {
                    proof {
                        lemma_item_smaller(*meta, k as int);
                    }
                    if !cfg_is_test_only(&items[k]) {
                        proof {
                            lemma_not_all_from(items@, k as int, items@.len() as int);
                        }
                        return false;
                    }
                    k = k + 1;
                }
                true
            } else {
                false
            }
        },
        CfgMeta::Other => false,
    }
}

/// `prefix::method` when there is a prefix, else the method alone.
pub fn qualified_name(prefix: Option<&str>, method: &str) -> (r: String)
    ensures
        match prefix {
            Some(p) => r@ == p@ + "::"@ + method@,
            None => r@ == method@,
        },
{
    match prefix {
        Some(p) => {
            let head = concat(p, "::");
            concat(head.as_str(), method)
        },
        None => owned(method),
    }
}

/// A construct of a function body that the cyclomatic rules look at.
#[derive(Debug, Clone, Copy, PartialEq, Eq, Structural)]
pub enum Construct {
    /// `if` or `if let`, including each `else if`.
    If,
    /// The `else` branch of an `if`.
    Else,
    /// `for` loop.
    ForLoop,
    /// `while` or `while let` loop.
    While,
    /// `loop`.
    Loop,
    /// One arm of a `match`, `_` included.
    MatchArm,
    /// The `if` guard of a match arm.
    MatchGuard,
    /// `let .. else`.
    LetElse,
    /// Short-circuit `&&`.
    LogicalAnd,
    /// Short-circuit `||`.
    LogicalOr,
    /// The `?` operator.
    Try,
    /// A closure; its body belongs to the enclosing function.
    Closure,
    /// An `async` block.
    AsyncBlock,
    /// A labeled `break` or `continue`.
    LabeledJump,
}

/// Whether a construct is a decision point: every branch construct counts
/// one (each match arm, each guard, `let .. else`, `?`, and each `&&` or
/// `||`); `else`, closures, `async` blocks and labeled jumps add nothing.
pub open spec fn is_decision(c: Construct) -> bool {
    match c {
        Construct::Else | Construct::Closure | Construct::AsyncBlock | Construct::LabeledJump => false,
        _ => true,
    }
}

/// Number of decision points among `cs`.
pub open spec fn decision_count(cs: Seq<Construct>) -> nat
    decreases cs.len(),
{
    if cs.len() == 0 {
        0
    } else {
        decision_count(cs.drop_last()) + if is_decision(cs.last()) {
            1nat
        } else {
            0nat
        }
    }
}

/// Cyclomatic complexity of a body with constructs `cs`: one plus each
/// decision point (held at `usize::MAX`).
pub open spec fn cyclomatic_of(cs: Seq<Construct>) -> usize {
    if 1 + decision_count(cs) <= usize::MAX {
        (1 + decision_count(cs)) as usize
    } else {
        usize::MAX
    }
}

/// One plus the number of decision points among `cs`.
pub fn cyclomatic_count(cs: &[Construct]) -> (n: usize)
    ensures
        n == cyclomatic_of(cs@),
{
    let mut d: usize = 0;
    let mut k: usize = 0;
    while k < cs.len()
        invariant
            k <= cs@.len(),
            d == decision_count(cs@.take(k as int)),
            d <= k,
        decreases cs.len() - k,
    {
        assert(cs@.take(k as int + 1).drop_last() =~= cs@.take(k as int));
        let c = cs[k];
        match c {
            Construct::Else | Construct::Closure | Construct::AsyncBlock | Construct::LabeledJump => {},
            _ => {
                d = d + 1;
            },
        }
        k = k + 1;
    }
    assert(cs@.take(cs@.len() as int) =~= cs@);
    if d < usize::MAX {
        d + 1
    } else {
        usize::MAX
    }
}

/// An item of a parsed Rust source file, as the complexity rules see it.
pub enum RustItem {
    /// A function: free, a method, or a trait method with or without a
    /// default body.
    Fn {
        /// Its identifier.
        name: String,
        /// Line of the `fn` keyword.
        start_line: usize,
        /// Line of the body's closing brace.
        end_line: usize,
        /// Whether it carries `#[test]`.
        test_attr: bool,
        /// Its `cfg` predicates.
        cfgs: Vec<CfgMeta>,
        /// Whether it has a body (a trait method may not).
        has_body: bool,
        /// The constructs of its body, nested items excluded.
        constructs: Vec<Construct>,
        /// Items declared inside it, in source order.
        nested: Vec<RustItem>,
    },
    /// An `impl` block.
    Impl {
        /// The implementing type's last path segment, when it is a path.
        self_ty: Option<String>,
        /// Its `cfg` predicates.
        cfgs: Vec<CfgMeta>,
        /// Its members.
        items: Vec<RustItem>,
    },
    /// A trait.
    Trait {
        /// Its identifier.
        name: String,
        /// Its `cfg` predicates.
        cfgs: Vec<CfgMeta>,
        /// Its members.
        items: Vec<RustItem>,
    },
    /// A module with its contents.
    Mod {
        /// Its `cfg` predicates.
        cfgs: Vec<CfgMeta>,
        /// Its items.
        items: Vec<RustItem>,
    },
    /// Any other item (or member), with the items declared inside it.
    Other {
        /// Items declared inside it.
        items: Vec<RustItem>,
    },
}

/// A function row as plain values: file, name, first line, last line,
/// complexity.
pub type RowView = (Seq<char>, Seq<char>, usize, usize, usize);

/// The plain values of `rows`.
pub open spec fn row_views(rows: Seq<FunctionComplexity>) -> Seq<RowView> {
    Seq::new(
        rows.len(),
        |i: int| (rows[i].file@, rows[i].name@, rows[i].start_line, rows[i].end_line, rows[i].complexity),
    )
}

/// Some `cfg` predicate of `cfgs` holds only in test builds.
pub open spec fn any_test_cfg(cfgs: Seq<CfgMeta>) -> bool {
    exists|k: int| 0 <= k < cfgs.len() && test_only(#[trigger] cfgs[k])
}

/// A function's reported name: `prefix::name` inside an `impl` or trait.
pub open spec fn named(prefix: Option<Seq<char>>, name: Seq<char>) -> Seq<char> {
    match prefix {
        Some(p) => p + "::"@ + name,
        None => name,
    }
}

/// The rows of item `it` of the file at `path`, members named with `prefix`.
///
/// Test functions (`#[test]` or a test-only `cfg`) are dropped with
/// everything inside them, as are `impl` blocks, traits and modules with a
/// test-only `cfg`. A function with a body is one row, followed by the rows
/// of the items declared inside it (scored separately, as free functions).
/// Methods are named `Type::method` (unprefixed when the type is not a
/// path) and trait default methods `Trait::method`.
pub open spec fn item_rows(path: Seq<char>, it: RustItem, prefix: Option<Seq<char>>) -> Seq<RowView>
    decreases it, 1int,
{
    match it {
        RustItem::Fn { name, start_line, end_line, test_attr, cfgs, has_body, constructs, nested } => {
            if test_attr || any_test_cfg(cfgs@) {
                Seq::empty()
            } else {
                (if has_body {
                    seq![(path, named(prefix, name@), start_line, end_line, cyclomatic_of(constructs@))]
                } else {
                    Seq::empty()
                }) + items_rows(path, nested@, None, nested@.len() as int)
            }
        },
        RustItem::Impl { self_ty, cfgs, items } => {
            if any_test_cfg(cfgs@) {
                Seq::empty()
            } else {
                items_rows(path, items@, ident_text(self_ty), items@.len() as int)
            }
        },
        RustItem::Trait { name, cfgs, items } => {
            if any_test_cfg(cfgs@) {
                Seq::empty()
            } else {
                items_rows(path, items@, Some(name@), items@.len() as int)
            }
        },
        RustItem::Mod { cfgs, items } => {
            if any_test_cfg(cfgs@) {
                Seq::empty()
            } else {
                items_rows(path, items@, None, items@.len() as int)
            }
        },
        RustItem::Other { items } => items_rows(path, items@, None, items@.len() as int),
    }
}

/// The rows of the first `n` of `items`, in order.
pub open spec fn items_rows(path: Seq<char>, items: Seq<RustItem>, prefix: Option<Seq<char>>, n: int) -> Seq<
    RowView,
>
    decreases items, 0int, n,
{
    if n <= 0 || n > items.len() {
        Seq::empty()
    } else {
        items_rows(path, items, prefix, n - 1) + item_rows(path, items[n - 1], prefix)
    }
}

/// Whether some `cfg` predicate of `cfgs` holds only in test builds.
fn any_test_cfg_exec(cfgs: &Vec<CfgMeta>) -> (r: bool)
    ensures
        r == any_test_cfg(cfgs@),
{
    let mut k: usize = 0;
    while k < cfgs.len()
        invariant
            k <= cfgs@.len(),
            forall|j: int| 0 <= j < k ==> !test_only(#[trigger] cfgs@[j]),
        decreases cfgs.len() - k,
    {
        if cfg_is_test_only(&cfgs[k]) {
            return true;
        }
        k = k + 1;
    }
    false
}

fn copy_opt_str(o: &Option<String>) -> (r: Option<&str>)
    ensures
        opt_str_text(r) == ident_text(*o),
{
    match o {
        Some(s) => Some(s.as_str()),
        None => None,
    }
}

/// The text of an optional string slice.
pub open spec fn opt_str_text(o: Option<&str>) -> Option<Seq<char>> {
    match o {
        Some(s) => Some(s@),
        None => None,
    }
}

proof fn lemma_push_row(rows: Seq<FunctionComplexity>, f: FunctionComplexity)
    ensures
        row_views(rows.push(f)) == row_views(rows).push((f.file@, f.name@, f.start_line, f.end_line, f.complexity)),
{
    assert(row_views(rows.push(f)) =~= row_views(rows).push(
        (f.file@, f.name@, f.start_line, f.end_line, f.complexity),
    ));
}

/// Appends the rows of `it` to `out`.
fn push_item_rows(path: &str, it: &RustItem, prefix: Option<&str>, out: &mut Vec<FunctionComplexity>)
    ensures
        row_views(final(out)@) == row_views(old(out)@) + item_rows(path@, *it, opt_str_text(prefix)),
    decreases *it, 1int,
{
    let ghost start = row_views(out@);
    match it {
        RustItem::Fn { name, start_line, end_line, test_attr, cfgs, has_body, constructs, nested } => {
            if *test_attr || any_test_cfg_exec(cfgs) {
                assert(start + Seq::<RowView>::empty() =~= start);
                return;
            }
            let ghost head: Seq<RowView> = if *has_body {
                seq![(path@, named(opt_str_text(prefix), name@), *start_line, *end_line, cyclomatic_of(constructs@))]
            } else {
                Seq::empty()
            };
            if *has_body {
                let row = FunctionComplexity {
                    file: owned(path),
                    name: qualified_name(prefix, name.as_str()),
                    start_line: *start_line,
                    end_line: *end_line,
                    complexity: cyclomatic_count(constructs.as_slice()),
                };
                let ghost before = out@;
                out.push(row);
                proof {
                    lemma_push_row(before, row);
                    assert(row_views(out@) =~= start + head);
                }
            } else {
                assert(start + head =~= start);
            }
            proof {
                assert(decreases_to!(*it => *nested));
                assert(decreases_to!(*nested => nested@));
            }
            push_items_rows(path, nested.as_slice(), None, out);
            assert(row_views(out@) =~= start + (head + items_rows(path@, nested@, None, nested@.len() as int)));
        },
        RustItem::Impl { self_ty, cfgs, items } => {
            if any_test_cfg_exec(cfgs) {
                assert(start + Seq::<RowView>::empty() =~= start);
                return;
            }
            proof {
                assert(decreases_to!(*it => *items));
                assert(decreases_to!(*items => items@));
            }
            push_items_rows(path, items.as_slice(), copy_opt_str(self_ty), out);
        },
        RustItem::Trait { name, cfgs, items } => {
            if any_test_cfg_exec(cfgs) {
                assert(start + Seq::<RowView>::empty() =~= start);
                return;
            }
            proof {
                assert(decreases_to!(*it => *items));
                assert(decreases_to!(*items => items@));
            }
            push_items_rows(path, items.as_slice(), Some(name.as_str()), out);
        },
        RustItem::Mod { cfgs, items } => {
            if any_test_cfg_exec(cfgs) {
                assert(start + Seq::<RowView>::empty() =~= start);
                return;
            }
            proof {
                assert(decreases_to!(*it => *items));
                assert(decreases_to!(*items => items@));
            }
            push_items_rows(path, items.as_slice(), None, out);
        },
        RustItem::Other { items } => {
            proof {
                assert(decreases_to!(*it => *items));
                assert(decreases_to!(*items => items@));
            }
            push_items_rows(path, items.as_slice(), None, out);
        },
    }
}

/// Appends the rows of `items`, in order, to `out`.
fn push_items_rows(path: &str, items: &[RustItem], prefix: Option<&str>, out: &mut Vec<FunctionComplexity>)
    ensures
        row_views(final(out)@) == row_views(old(out)@) + items_rows(
            path@,
            items@,
            opt_str_text(prefix),
            items@.len() as int,
        ),
    decreases items@, 0int,
{
    let ghost start = row_views(out@);
    let mut k: usize = 0;
    assert(start + Seq::<RowView>::empty() =~= start);
    while k < items.len()
        invariant
            k <= items@.len(),
            row_views(out@) == start + items_rows(path@, items@, opt_str_text(prefix), k as int),
        decreases items.len() - k,
    {
        let ghost before = row_views(out@);
        proof {
            assert(decreases_to!(items@ => items@[k as int]));
        }
        push_item_rows(path, &items[k], prefix, out);
        assert(row_views(out@) =~= start + items_rows(path@, items@, opt_str_text(prefix), k as int + 1));
        k = k + 1;
    }
}

/// The scored functions of a parsed source file at `path`, in source order.
pub fn functions_of(path: &str, items: &[RustItem]) -> (r: Vec<FunctionComplexity>)
    ensures
        row_views(r@) == items_rows(path@, items@, None, items@.len() as int),
{
    let mut out: Vec<FunctionComplexity> = Vec::new();
    proof {
        assert(row_views(out@) =~= Seq::<RowView>::empty());
    }
    push_items_rows(path, items, None, &mut out);
    assert(Seq::<RowView>::empty() + items_rows(path@, items@, None, items@.len() as int) =~= items_rows(
        path@,
        items@,
        None,
        items@.len() as int,
    ));
    out
}

/// The scored functions of the source file at `path`, given what reading it
/// as Rust gave: its items, or the parser's message, which becomes a parse
/// error `path: message`.
pub fn analyze_source(path: &str, parsed: Result<Vec<RustItem>, String>) -> (r: Result<Vec<FunctionComplexity>, Error>)
    ensures
        parsed matches Ok(items) ==> (r matches Ok(rows) && row_views(rows@) == items_rows(
            path@,
            items@,
            None,
            items@.len() as int,
        )),
        parsed matches Err(m) ==> (r matches Err(e) && e matches Error::Parse(t) && t@ == path@ + ": "@ + m@),
{
    match parsed {
        Ok(items) => Ok(functions_of(path, items.as_slice())),
        Err(m) => {
            let head = concat(path, ": ");
            Err(Error::Parse(concat(head.as_str(), m.as_str())))
        },
    }
}

} // verus!
