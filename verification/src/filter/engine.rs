//! The filter engine of the `wirefilter` crate over schemes whose fields all
//! hold bytes: the scheme, the parsed and compiled filters and the execution
//! context each keep, as plain values, the field names and the expression or
//! field values they were made from, which the contracts speak of.
use vstd::prelude::*;
use wirefilter::{
    ExecutionContext, FieldValueTypeMismatchError, Filter, FilterAst, Scheme, SchemeMismatchError, Type,
};
use crate::result::{distinct, views};

verus! {

#[verifier::external_type_specification]
#[verifier::external_body]
pub struct ExScheme(Scheme);

#[verifier::external_type_specification]
#[verifier::external_body]
pub struct ExFilter<'s>(Filter<'s>);

#[verifier::external_type_specification]
#[verifier::external_body]
pub struct ExFilterAst<'s>(FilterAst<'s>);

#[verifier::external_type_specification]
#[verifier::external_body]
pub struct ExExecutionContext<'e>(ExecutionContext<'e>);

#[verifier::external_type_specification]
#[verifier::external_body]
pub struct ExSchemeMismatchError(SchemeMismatchError);

#[verifier::external_type_specification]
#[verifier::external_body]
pub struct ExFieldValueTypeMismatchError(FieldValueTypeMismatchError);

/// Whether `input` parses as a filter expression against a scheme whose
/// fields are `fields`, each holding bytes.
pub uninterp spec fn filter_parses(fields: Seq<Seq<char>>, input: Seq<char>) -> bool;

/// What the filter expression `input`, parsed against a scheme of the bytes
/// fields `fields` and compiled, gives when each field it reads has the value
/// that `values` maps it to.
pub uninterp spec fn filter_matches(
    fields: Seq<Seq<char>>,
    input: Seq<char>,
    values: Map<Seq<char>, Seq<char>>,
) -> bool;

/// A scheme of the `wirefilter` crate whose fields all hold bytes, with the
/// names of its fields.
pub struct BytesScheme {
    scheme: Scheme,
    names: Vec<String>,
}

/// A filter expression parsed against a scheme, with the scheme's field names
/// and the expression's text.
pub struct ParsedFilter<'s> {
    ast: FilterAst<'s>,
    scheme: &'s BytesScheme,
    fields: Ghost<Seq<Seq<char>>>,
    source: Ghost<Seq<char>>,
}

/// A compiled filter, with the field names of its scheme and the text of its
/// expression.
pub struct CompiledFilter<'s> {
    filter: Filter<'s>,
    scheme: &'s BytesScheme,
    fields: Ghost<Seq<Seq<char>>>,
    source: Ghost<Seq<char>>,
}

/// An execution context, with the field names of its scheme and the values
/// given so far.
pub struct Context<'e> {
    ctx: ExecutionContext<'e>,
    scheme: &'e BytesScheme,
    fields: Ghost<Seq<Seq<char>>>,
    values: Ghost<Map<Seq<char>, Seq<char>>>,
}

/// A scheme of the bytes fields `names` (wirefilter's `Scheme::try_from_iter`),
/// which fails exactly where a name comes twice.
#[verifier::external_body]
fn bytes_scheme(names: &Vec<String>) -> (r: Option<Scheme>)
    ensures
        r is Some <==> distinct(views(names@)),
{
    Scheme::try_from_iter(names.iter().map(|n| (n.clone(), Type::Bytes))).ok()
}

/// Parses the filter expression `input` against `scheme` (wirefilter's
/// `Scheme::parse`); the result is named by `filter_parses`.
#[verifier::external_body]
pub(crate) fn parse_filter<'s>(scheme: &'s BytesScheme, input: &str) -> (r: Option<ParsedFilter<'s>>)
    ensures
        r is Some <==> filter_parses(scheme.fields(), input@),
        r matches Some(p) ==> p.fields() == scheme.fields() && p.source() == input@ && p.scheme_of() == *scheme,
{
    match scheme.scheme.parse(input) {
        Ok(ast) => Some(ParsedFilter { ast, scheme, fields: Ghost(scheme.fields()), source: Ghost(input@) }),
        Err(_) => None,
    }
}

/// Compiles a parsed expression (wirefilter's `FilterAst::compile`).
#[verifier::external_body]
pub(crate) fn compile_filter<'s>(p: ParsedFilter<'s>) -> (r: CompiledFilter<'s>)
    ensures
        r.fields() == p.fields(),
        r.source() == p.source(),
        r.scheme_of() == p.scheme_of(),
{
    CompiledFilter { filter: p.ast.compile(), scheme: p.scheme, fields: p.fields, source: p.source }
}

/// An execution context of `scheme` with no field values set (wirefilter's
/// `ExecutionContext::new`).
#[verifier::external_body]
pub(crate) fn new_context<'s>(scheme: &'s BytesScheme) -> (r: Context<'s>)
    ensures
        r.fields() == scheme.fields(),
        r.values().dom() == Set::<Seq<char>>::empty(),
        r.scheme_of() == *scheme,
{
    Context {
        ctx: ExecutionContext::new(&scheme.scheme),
        scheme,
        fields: Ghost(scheme.fields()),
        values: Ghost(Map::empty()),
    }
}

/// Gives field `name` the bytes of `value` (wirefilter's
/// `ExecutionContext::set_field_value`). The call panics where the scheme has
/// no such field, which `requires` leaves out; as every field holds bytes, the
/// value's type always fits.
#[verifier::external_body]
pub(crate) fn set_field_value<'e>(
    ctx: &mut Context<'e>,
    name: &str,
    value: &'e str,
) -> (r: Result<(), FieldValueTypeMismatchError>)
    requires
        old(ctx).fields().contains(name@),
    ensures
        r is Ok,
        final(ctx).fields() == old(ctx).fields(),
        final(ctx).values() == old(ctx).values().insert(name@, value@),
        final(ctx).scheme_of() == old(ctx).scheme_of(),
{
    let r = ctx.ctx.set_field_value(name, value);
    ctx.values = Ghost(ctx.values@.insert(name@, value@));
    r
}

/// Runs `filter` on the values of `ctx` (wirefilter's `Filter::execute`); the
/// error says that the context belongs to another scheme than the filter. On
/// the filter's own scheme the call panics where evaluation reaches a field
/// that was given no value, which `requires` leaves out by asking a value for
/// every field of that scheme (a filter of another scheme object with other
/// field names is refused before any field is read). An answer is what the
/// expression gives on the context's values. The filter and the context carry
/// the scheme they were made from; wirefilter compares schemes by identity
/// (`Scheme`'s `==` is pointer equality), and a scheme is never copied (it is
/// not `Clone`, and a `BytesScheme` is borrowed while its filters and contexts
/// live), so where both carry the same scheme value they carry the same scheme
/// object and the call answers.
#[verifier::external_body]
pub(crate) fn execute_filter<'s>(
    filter: &CompiledFilter<'s>,
    ctx: &Context<'s>,
) -> (r: Result<bool, SchemeMismatchError>)
    requires
        filter.fields() == ctx.fields() ==> forall|n: Seq<char>|
            #[trigger] ctx.fields().contains(n) ==> ctx.values().dom().contains(n),
    ensures
        r matches Ok(b) ==> b == filter_matches(filter.fields(), filter.source(), ctx.values()),
        filter.scheme_of() == ctx.scheme_of() ==> r is Ok,
{
    filter.filter.execute(&ctx.ctx)
}

impl BytesScheme {
    /// The names of the fields.
    pub closed spec fn fields(&self) -> Seq<Seq<char>> {
        views(self.names@)
    }

    /// A scheme of the bytes fields `names`; nothing where a name comes twice.
    pub fn new(names: &Vec<String>) -> (r: Option<BytesScheme>)
        ensures
            r is Some <==> distinct(views(names@)),
            r matches Some(s) ==> s.fields() == views(names@),
    {
        match bytes_scheme(names) {
            Some(scheme) => {
                let mut copy: Vec<String> = Vec::new();
                let mut i: usize = 0;
                while i < names.len()
                    invariant
                        i <= names.len(),
                        views(copy@) == views(names@).take(i as int),
                    decreases names.len() - i,
                {
                    let ghost before = views(copy@);
                    copy.push(names[i].clone());
                    assert(views(copy@) =~= before.push(names@[i as int]@));
                    assert(views(names@).take(i + 1) =~= views(names@).take(i as int).push(
                        names@[i as int]@,
                    ));
                    i = i + 1;
                }
                assert(views(names@).take(i as int) == views(names@));
                Some(BytesScheme { scheme, names: copy })
            },
            None => None,
        }
    }

    /// The names of the fields.
    pub fn names(&self) -> (r: &Vec<String>)
        ensures
            views(r@) == self.fields(),
    {
        &self.names
    }
}

impl<'s> ParsedFilter<'s> {
    pub closed spec fn fields(&self) -> Seq<Seq<char>> {
        self.fields@
    }

    pub closed spec fn source(&self) -> Seq<char> {
        self.source@
    }

    /// The scheme the expression was parsed against.
    pub closed spec fn scheme_of(&self) -> BytesScheme {
        *self.scheme
    }
}

impl<'s> CompiledFilter<'s> {
    /// The scheme the filter was compiled against.
    pub closed spec fn scheme_of(&self) -> BytesScheme {
        *self.scheme
    }

    /// The field names of the scheme the filter was compiled against.
    pub closed spec fn fields(&self) -> Seq<Seq<char>> {
        self.fields@
    }

    /// The text of the filter's expression.
    pub closed spec fn source(&self) -> Seq<char> {
        self.source@
    }
}

impl<'e> Context<'e> {
    /// The scheme the context was made for.
    pub closed spec fn scheme_of(&self) -> BytesScheme {
        *self.scheme
    }

    /// The field names of the context's scheme.
    pub closed spec fn fields(&self) -> Seq<Seq<char>> {
        self.fields@
    }

    /// The values given to fields so far.
    pub closed spec fn values(&self) -> Map<Seq<char>, Seq<char>> {
        self.values@
    }
}

} // verus!
