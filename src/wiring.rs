use vstd::prelude::*;

verus! {

/// An attribute as written on a declaration or a field: its path, when the
/// path is a single name, and its argument, when the parentheses hold exactly
/// one name.
pub struct Attr {
    pub path: String,
    pub arg: Option<String>,
}

/// A named field of a command struct with its attributes.
pub struct Field {
    pub name: String,
    pub attrs: Vec<Attr>,
}

/// The shape of a declared type.
pub enum Shape {
    /// A struct with named fields.
    Named(Vec<Field>),
    /// A tuple struct or a unit struct.
    Unnamed,
    /// An enum, with the names of its variants.
    Variants(Vec<String>),
    /// A union.
    Union,
}

/// A type declaration that asks for dispatch wiring.
pub struct Decl {
    pub attrs: Vec<Attr>,
    pub shape: Shape,
}

/// How a declaration takes part in dispatch.
pub enum Wiring {
    /// A command: the method that injects values, if any, and the field that
    /// holds its choice of subcommand.
    Command { injector: Option<String>, subcommand: String },
    /// A choice, forwarding to each of these variants.
    Choice { variants: Vec<String> },
}

/// A declaration that cannot be wired, found before any dispatch.
#[derive(PartialEq, Eq, Structural, Clone, Copy, Debug)]
pub enum ConfigError {
    /// A command struct without a field marked as its subcommand.
    MissingSubcommand,
    /// A command struct with more than one field marked as its subcommand.
    SeveralSubcommands,
    /// A choice without variants.
    NoVariants,
    /// A struct whose fields are not named.
    UnnamedFields,
    /// A union.
    UnionType,
    /// A handler function with a `self` parameter.
    ReceiverParam,
}

/// The attribute path that names a command's injector method.
pub open spec fn inject_path() -> Seq<char> {
    "handler_inject"@
}

/// The attribute path of the parser's field options.
pub open spec fn parser_path() -> Seq<char> {
    "clap"@
}

/// The parser option that marks the subcommand field.
pub open spec fn subcommand_word() -> Seq<char> {
    "subcommand"@
}

/// The argument of the first injector attribute, if there is one.
pub open spec fn injector_of(attrs: Seq<Attr>) -> Option<String>
    decreases attrs.len(),
{
    if attrs.len() == 0 {
        None
    } else if attrs[0].path@ == inject_path() {
        attrs[0].arg
    } else {
        injector_of(attrs.drop_first())
    }
}

/// Whether a field's attributes mark it as the subcommand. They are read in
/// order; a parser attribute whose argument is not a single name ends the
/// reading with no mark.
pub open spec fn marks_subcommand(attrs: Seq<Attr>) -> bool
    decreases attrs.len(),
{
    if attrs.len() == 0 {
        false
    } else if attrs[0].path@ == parser_path() {
        match attrs[0].arg {
            None => false,
            Some(a) => a@ == subcommand_word() || marks_subcommand(attrs.drop_first()),
        }
    } else {
        marks_subcommand(attrs.drop_first())
    }
}

/// The names of the fields marked as the subcommand, in order.
pub open spec fn subcommand_fields(fields: Seq<Field>) -> Seq<String>
    decreases fields.len(),
{
    if fields.len() == 0 {
        Seq::empty()
    } else {
        let rest = subcommand_fields(fields.drop_first());
        if marks_subcommand(fields[0].attrs@) {
            seq![fields[0].name] + rest
        } else {
            rest
        }
    }
}

/// The wiring of a declaration, or why it has none.
pub open spec fn wiring_of(d: Decl) -> Result<Wiring, ConfigError> {
    match d.shape {
        Shape::Named(fields) => {
            let marked = subcommand_fields(fields@);
            if marked.len() == 0 {
                Err(ConfigError::MissingSubcommand)
            } else if marked.len() > 1 {
                Err(ConfigError::SeveralSubcommands)
            } else {
                Ok(Wiring::Command { injector: injector_of(d.attrs@), subcommand: marked[0] })
            }
        },
        Shape::Unnamed => Err(ConfigError::UnnamedFields),
        Shape::Variants(names) => {
            if names@.len() == 0 {
                Err(ConfigError::NoVariants)
            } else {
                Ok(Wiring::Choice { variants: names })
            }
        },
        Shape::Union => Err(ConfigError::UnionType),
    }
}

fn is_word(s: &String, word: &str) -> (r: bool)
    ensures
        r == (s@ == word@),
{
    *s == word.to_owned()
}

/// The argument of the first injector attribute, if there is one.
pub fn find_injector(attrs: &Vec<Attr>) -> (r: Option<String>)
    ensures
        r == injector_of(attrs@),
{
    let mut i: usize = 0;
    assert(attrs@.subrange(0, attrs@.len() as int) =~= attrs@);
    while i < attrs.len()
        invariant
            i <= attrs@.len(),
            injector_of(attrs@) == injector_of(attrs@.subrange(i as int, attrs@.len() as int)),
        decreases attrs@.len() - i,
    {
        let ghost tail = attrs@.subrange(i as int, attrs@.len() as int);
        assert(tail.drop_first() =~= attrs@.subrange(i + 1, attrs@.len() as int));
        if is_word(&attrs[i].path, "handler_inject") {
            return match &attrs[i].arg {
                Some(a) => Some(a.clone()),
                None => None,
            };
        }
        i = i + 1;
    }
    None
}

/// Whether a field's attributes mark it as the subcommand.
pub fn is_subcommand(attrs: &Vec<Attr>) -> (r: bool)
    ensures
        r == marks_subcommand(attrs@),
{
    let mut i: usize = 0;
    assert(attrs@.subrange(0, attrs@.len() as int) =~= attrs@);
    while i < attrs.len()
        invariant
            i <= attrs@.len(),
            marks_subcommand(attrs@) == marks_subcommand(
                attrs@.subrange(i as int, attrs@.len() as int),
            ),
        decreases attrs@.len() - i,
    {
        let ghost tail = attrs@.subrange(i as int, attrs@.len() as int);
        assert(tail.drop_first() =~= attrs@.subrange(i + 1, attrs@.len() as int));
        if is_word(&attrs[i].path, "clap") {
            match &attrs[i].arg {
                None => {
                    return false;
                },
                Some(a) => {
                    if is_word(a, "subcommand") {
                        return true;
                    }
                },
            }
        }
        i = i + 1;
    }
    false
}

proof fn lemma_subcommand_fields_push(fields: Seq<Field>, f: Field)
    ensures
        subcommand_fields(fields.push(f)) == if marks_subcommand(f.attrs@) {
            subcommand_fields(fields).push(f.name)
        } else {
            subcommand_fields(fields)
        },
    decreases fields.len(),
{
    let all = fields.push(f);
    assert(all[0] == if fields.len() == 0 { f } else { fields[0] });
    if fields.len() == 0 {
        assert(all.drop_first() =~= Seq::<Field>::empty());
        assert(subcommand_fields(all.drop_first()) == Seq::<String>::empty());
        assert(seq![f.name] + Seq::<String>::empty() =~= Seq::<String>::empty().push(f.name));
    } else {
        assert(all.drop_first() =~= fields.drop_first().push(f));
        lemma_subcommand_fields_push(fields.drop_first(), f);
        let rest = subcommand_fields(fields.drop_first());
        if marks_subcommand(fields[0].attrs@) {
            assert(seq![fields[0].name] + rest.push(f.name) =~= (seq![fields[0].name] + rest).push(
                f.name,
            ));
        }
    }
}

/// The names of the fields marked as the subcommand, in order.
pub fn find_subcommands(fields: &Vec<Field>) -> (r: Vec<String>)
    ensures
        r@ == subcommand_fields(fields@),
{
    let mut r: Vec<String> = Vec::new();
    let mut i: usize = 0;
    while i < fields.len()
        invariant
            i <= fields@.len(),
            r@ == subcommand_fields(fields@.subrange(0, i as int)),
        decreases fields@.len() - i,
    {
        proof {
            lemma_subcommand_fields_push(fields@.subrange(0, i as int), fields@[i as int]);
            assert(fields@.subrange(0, i as int).push(fields@[i as int]) =~= fields@.subrange(
                0,
                i + 1,
            ));
        }
        if is_subcommand(&fields[i].attrs) {
            r.push(fields[i].name.clone());
        }
        i = i + 1;
    }
    assert(fields@.subrange(0, fields@.len() as int) =~= fields@);
    r
}

/// Decides how a declaration is wired into dispatch. A struct needs named
/// fields, exactly one of them marked as its subcommand; its injector is the
/// method named by its first injector attribute. An enum needs at least one
/// variant. A union is refused.
pub fn wire(decl: Decl) -> (r: Result<Wiring, ConfigError>)
    ensures
        r == wiring_of(decl),
{
    let Decl { attrs, shape } = decl;
    match shape {
        Shape::Named(fields) => {
            let marked = find_subcommands(&fields);
            if marked.len() == 0 {
                Err(ConfigError::MissingSubcommand)
            } else if marked.len() > 1 {
                Err(ConfigError::SeveralSubcommands)
            } else {
                let injector = find_injector(&attrs);
                Ok(Wiring::Command { injector, subcommand: marked[0].clone() })
            }
        },
        Shape::Unnamed => Err(ConfigError::UnnamedFields),
        Shape::Variants(names) => {
            if names.len() == 0 {
                Err(ConfigError::NoVariants)
            } else {
                Ok(Wiring::Choice { variants: names })
            }
        },
        Shape::Union => Err(ConfigError::UnionType),
    }
}

/// A command declared with named fields, none of them marked as its
/// subcommand, is refused when it is wired, before any dispatch; the refusal
/// depends on the declaration alone.
pub proof fn lemma_missing_subcommand_refused(decl: Decl)
    requires
        decl.shape matches Shape::Named(fields) && forall|i: int|
            0 <= i < fields@.len() ==> !marks_subcommand(#[trigger] fields@[i].attrs@),
    ensures
        wiring_of(decl) == Err::<Wiring, ConfigError>(ConfigError::MissingSubcommand),
{
    if let Shape::Named(fields) = decl.shape {
        lemma_no_marks(fields@);
    }
}

proof fn lemma_no_marks(fields: Seq<Field>)
    requires
        forall|i: int| 0 <= i < fields.len() ==> !marks_subcommand(#[trigger] fields[i].attrs@),
    ensures
        subcommand_fields(fields).len() == 0,
    decreases fields.len(),
{
    if fields.len() > 0 {
        assert(!marks_subcommand(fields[0].attrs@));
        assert forall|i: int| 0 <= i < fields.drop_first().len() implies !marks_subcommand(
            #[trigger] fields.drop_first()[i].attrs@,
        ) by {
            assert(fields.drop_first()[i] == fields[i + 1]);
        }
        lemma_no_marks(fields.drop_first());
    }
}

} // verus!
