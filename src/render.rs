use vstd::prelude::*;
use crate::tree::Expr;

verus! {

/// The nodes written as `Atom(text)` and `List([...])`, separated by `, `.
pub open spec fn rendered_items<'a>(ns: Seq<Expr<'a>>) -> Seq<char>
    decreases ns,
{
    if ns.len() == 0 {
        Seq::empty()
    } else {
        let init = ns.drop_last();
        (if init.len() == 0 {
            Seq::empty()
        } else {
            rendered_items(init) + ", "@
        }) + match ns.last() {
            Expr::Atom(t) => "Atom("@ + t@ + ")"@,
            Expr::List(l) => "List(["@ + rendered_items(l@) + "])"@,
        }
    }
}

/// A node written out: `Atom(text)`, or `List([...])` with its children.
pub open spec fn rendered<'a>(e: Expr<'a>) -> Seq<char> {
    match e {
        Expr::Atom(t) => "Atom("@ + t@ + ")"@,
        Expr::List(l) => "List(["@ + rendered_items(l@) + "])"@,
    }
}

/// A sequence of nodes written out as `[` its items `]`.
pub open spec fn rendered_nodes<'a>(ns: Seq<Expr<'a>>) -> Seq<char> {
    "["@ + rendered_items(ns) + "]"@
}

fn render_items<'a>(ns: &Vec<Expr<'a>>) -> (r: String)
    ensures
        r@ == rendered_items(ns@),
    decreases ns@,
{
    let mut out = String::new();
    let mut i: usize = 0;
    assert(ns@.take(0) =~= Seq::<Expr<'a>>::empty());
    while i < ns.len()
        invariant
            i <= ns.len(),
            out@ == rendered_items(ns@.take(i as int)),
        decreases ns.len() - i,
    {
        let ghost before = out@;
        let ghost prefix = ns@.take(i as int);
        assert(ns@.take(i + 1).drop_last() =~= prefix);
        assert(ns@.take(i + 1).last() == ns@[i as int]);
        if i > 0 {
            out.append(", ");
        }
        let ghost sep = out@;
        match &ns[i] {
            Expr::Atom(t) => {
                out.append("Atom(");
                out.append(t);
                out.append(")");
                assert(out@ =~= sep + ("Atom("@ + t@ + ")"@));
            },
            Expr::List(l) => {
                assert(decreases_to!(ns@ => ns@[i as int]));
                let inner = render_items(l);
                out.append("List([");
                out.append(inner.as_str());
                out.append("])");
                assert(out@ =~= sep + ("List(["@ + rendered_items(l@) + "])"@));
            },
        }
        i = i + 1;
    }
    assert(ns@.take(i as int) =~= ns@);
    out
}

impl<'a> Expr<'a> {
    /// The node written out: `Atom(text)`, or `List([...])` with its
    /// children separated by `, `.
    pub fn render(&self) -> (r: String)
        ensures
            r@ == rendered(*self),
    {
        match self {
            Expr::Atom(t) => {
                let mut out = String::new();
                out.append("Atom(");
                out.append(t);
                out.append(")");
                assert(out@ =~= "Atom("@ + t@ + ")"@);
                out
            },
            Expr::List(l) => {
                let inner = render_items(l);
                let mut out = String::new();
                out.append("List([");
                out.append(inner.as_str());
                out.append("])");
                assert(out@ =~= "List(["@ + rendered_items(l@) + "])"@);
                out
            },
        }
    }
}

/// The nodes written out as `[` their renderings separated by `, ` `]`.
pub fn render_nodes<'a>(ns: &Vec<Expr<'a>>) -> (r: String)
    ensures
        r@ == rendered_nodes(ns@),
{
    let inner = render_items(ns);
    let mut out = String::new();
    out.append("[");
    out.append(inner.as_str());
    out.append("]");
    assert(out@ =~= "["@ + rendered_items(ns@) + "]"@);
    out
}

} // verus!
