use vstd::prelude::*;

use crate::context::Context;
use crate::wiring::ConfigError;

verus! {

/// The declared type of a handler function's parameter, as far as it decides
/// how the parameter is taken from the context.
#[derive(PartialEq, Eq, Structural, Clone, Copy, Debug)]
pub enum ParamDecl {
    /// A `self` parameter.
    Receiver,
    /// A reference, shared or exclusive.
    Reference { mutable: bool },
    /// Any other type, taken by value.
    Value,
}

/// How a parameter is taken from the context.
#[derive(PartialEq, Eq, Structural, Clone, Copy, Debug)]
pub enum Access {
    /// Borrowed with `get`.
    Shared,
    /// Borrowed with `get_mut`.
    Exclusive,
    /// Moved out with `take`.
    Owned,
}

/// A value that a handler function needs: the key of its type and how it is
/// taken.
#[derive(PartialEq, Eq, Structural, Clone, Copy, Debug)]
pub struct Need {
    pub key: u64,
    pub access: Access,
}

/// A value that a command needed and that no ancestor left in the context.
#[derive(PartialEq, Eq, Structural, Clone, Copy, Debug)]
pub struct Missing {
    pub key: u64,
    pub node: u64,
}

/// The access of a typed parameter: a shared reference is borrowed, an
/// exclusive one borrowed mutably, anything else taken.
pub open spec fn access_spec(p: ParamDecl) -> Access {
    match p {
        ParamDecl::Reference { mutable } => if mutable {
            Access::Exclusive
        } else {
            Access::Shared
        },
        _ => Access::Owned,
    }
}

/// The access of each parameter, in order; a `self` parameter is refused.
pub fn accesses(params: &Vec<ParamDecl>) -> (r: Result<Vec<Access>, ConfigError>)
    ensures
        match r {
            Ok(a) => {
                &&& forall|i: int| 0 <= i < params@.len() ==> params@[i] != ParamDecl::Receiver
                &&& a@.len() == params@.len()
                &&& forall|i: int|
                    0 <= i < params@.len() ==> #[trigger] a@[i] == access_spec(params@[i])
            },
            Err(e) => {
                &&& e == ConfigError::ReceiverParam
                &&& exists|i: int| 0 <= i < params@.len() && params@[i] == ParamDecl::Receiver
            },
        },
{
    let mut a: Vec<Access> = Vec::new();
    let mut i: usize = 0;
    while i < params.len()
        invariant
            i <= params@.len(),
            a@.len() == i,
            forall|j: int| 0 <= j < i ==> params@[j] != ParamDecl::Receiver,
            forall|j: int| 0 <= j < i ==> #[trigger] a@[j] == access_spec(params@[j]),
        decreases params@.len() - i,
    {
        let access = match params[i] {
            ParamDecl::Receiver => {
                return Err(ConfigError::ReceiverParam);
            },
            ParamDecl::Reference { mutable } => if mutable {
                Access::Exclusive
            } else {
                Access::Shared
            },
            ParamDecl::Value => Access::Owned,
        };
        a.push(access);
        i = i + 1;
    }
    Ok(a)
}

/// Resolution of the needs of a handler from the values `ctx`, in order: each
/// needed key must be held when its turn comes; an owned need removes its
/// value. The result is the owned values in order with the values left, or
/// the first key that was not held.
pub open spec fn resolution<V>(ctx: Map<u64, V>, needs: Seq<Need>) -> Result<
    (Seq<V>, Map<u64, V>),
    u64,
>
    decreases needs.len(),
{
    if needs.len() == 0 {
        Ok((Seq::empty(), ctx))
    } else {
        let k = needs[0].key;
        if !ctx.contains_key(k) {
            Err(k)
        } else if needs[0].access == Access::Owned {
            match resolution(ctx.remove(k), needs.drop_first()) {
                Ok((vs, m)) => Ok((seq![ctx[k]] + vs, m)),
                Err(missing) => Err(missing),
            }
        } else {
            resolution(ctx, needs.drop_first())
        }
    }
}

/// `res` with the values `taken` put before the values it takes.
pub open spec fn after_taken<V>(taken: Seq<V>, res: Result<(Seq<V>, Map<u64, V>), u64>) -> Result<
    (Seq<V>, Map<u64, V>),
    u64,
> {
    match res {
        Ok((vs, m)) => Ok((taken + vs, m)),
        Err(k) => Err(k),
    }
}

/// Takes from the context what a command's handler function needs: borrowed
/// values are checked to be there, owned ones are removed and returned in
/// order. The first need that is not held is reported with `node`, and what
/// was removed before it stays removed. A value that is absent is missing,
/// whatever the type of the parameter: an optional parameter is not filled
/// with an empty value.
pub fn resolve<V>(ctx: &mut Context<V>, node: u64, needs: &Vec<Need>) -> (r: Result<
    Vec<V>,
    Missing,
>)
    requires
        old(ctx).wf(),
    ensures
        final(ctx).wf(),
        match resolution(old(ctx)@, needs@) {
            Ok((vs, m)) => r is Ok && r->Ok_0@ == vs && final(ctx)@ == m,
            Err(k) => r == Err::<Vec<V>, Missing>(Missing { key: k, node }),
        },
{
    let mut taken: Vec<V> = Vec::new();
    let mut i: usize = 0;
    assert(needs@.subrange(0, needs@.len() as int) =~= needs@);
    while i < needs.len()
        invariant
            i <= needs@.len(),
            ctx.wf(),
            resolution(old(ctx)@, needs@) == after_taken(
                taken@,
                resolution(ctx@, needs@.subrange(i as int, needs@.len() as int)),
            ),
        decreases needs@.len() - i,
    {
        let ghost rest = needs@.subrange(i as int, needs@.len() as int);
        let ghost before = ctx@;
        let ghost taken_before = taken@;
        assert(rest.drop_first() =~= needs@.subrange(i + 1, needs@.len() as int));
        assert(rest[0] == needs@[i as int]);
        let need = needs[i];
        match need.access {
            Access::Owned => {
                match ctx.take(need.key) {
                    Ok(v) => {
                        taken.push(v);
                        proof {
                            let tail = resolution(ctx@, rest.drop_first());
                            match tail {
                                Ok((vs, m)) => {
                                    assert(taken_before + (seq![before[need.key]] + vs)
                                        =~= taken@ + vs);
                                },
                                Err(_) => {},
                            }
                        }
                    },
                    Err(_) => {
                        return Err(Missing { key: need.key, node });
                    },
                }
            },
            _ => {
                if !ctx.contains(need.key) {
                    return Err(Missing { key: need.key, node });
                }
            },
        }
        i = i + 1;
    }
    assert(taken@ + Seq::<V>::empty() =~= taken@);
    Ok(taken)
}

} // verus!
