use vstd::prelude::*;

use crate::ast::{execute_stmt, Node};
use crate::error::{ErrorModel, LangError};
use crate::lexer::{prepend, prepend_all};

verus! {

/// The values that a sequence of nodes prints, in order: each statement is
/// executed, each bare expression is passed over unevaluated.
pub open spec fn outputs(ns: Seq<Node>) -> Result<Seq<int>, ErrorModel>
    decreases ns.len(),
{
    if ns.len() == 0 {
        Ok(seq![])
    } else {
        match ns[0] {
            Node::Statement(s) => match execute_stmt(s) {
                Err(e) => Err(e),
                Ok(v) => prepend(v, outputs(ns.drop_first())),
            },
            Node::Expression(_) => outputs(ns.drop_first()),
        }
    }
}

pub open spec fn int_values(vs: Seq<i32>) -> Seq<int> {
    vs.map_values(|v: i32| v as int)
}

/// The executor: the nodes it walks and its cursor among them.
pub struct Parser {
    pub nodes: Vec<Node>,
    pub expos: usize,
}

impl Parser {
    pub fn new() -> (r: Self)
        ensures
            r.nodes@.len() == 0,
            r.expos == 0,
    {
        Parser { nodes: Vec::new(), expos: 0 }
    }

    /// Walks `nodes` in order and returns the values that the statements
    /// print, or the first error met.
    pub fn parse(&mut self, nodes: Vec<Node>) -> (r: Result<Vec<i32>, LangError>)
        ensures
            match r {
                Ok(vs) => outputs(nodes@) == Ok::<Seq<int>, ErrorModel>(int_values(vs@)),
                Err(e) => outputs(nodes@) == Err::<Seq<int>, ErrorModel>(e@),
            },
            final(self).nodes@ == nodes@,
    {
        let ghost ns = nodes@;
        self.nodes = nodes;
        self.expos = 0;
        let mut printed: Vec<i32> = Vec::new();
        assert(ns.subrange(0, ns.len() as int) =~= ns);
        assert(prepend_all(int_values(printed@), outputs(ns)) == outputs(ns)) by {
            match outputs(ns) {
                Ok(xs) => assert(int_values(printed@) + xs =~= xs),
                Err(_) => {},
            }
        }
        while self.expos < self.nodes.len()
            invariant
                self.nodes@ == ns,
                ns == nodes@,
                self.expos <= ns.len(),
                prepend_all(int_values(printed@), outputs(ns.subrange(self.expos as int, ns.len() as int)))
                    == outputs(ns),
            decreases ns.len() - self.expos,
        {
            let ghost rest = ns.subrange(self.expos as int, ns.len() as int);
            assert(rest.drop_first() =~= ns.subrange(self.expos + 1, ns.len() as int));
            if let Node::Statement(stat) = &self.nodes[self.expos] {
                match stat.execute() {
                    Err(e) => {
                        return Err(e);
                    },
                    Ok(v) => {
                        let ghost before = int_values(printed@);
                        printed.push(v);
                        proof {
                            assert(int_values(printed@) =~= before.push(v as int));
                            match outputs(rest.drop_first()) {
                                Ok(xs) => assert(before + (seq![v as int] + xs) =~= before.push(v as int) + xs),
                                Err(_) => {},
                            }
                        }
                    },
                }
            }
            self.expos = self.expos + 1;
        }
        assert(ns.subrange(self.expos as int, ns.len() as int) =~= seq![]);
        assert(int_values(printed@) + seq![] =~= int_values(printed@));
        Ok(printed)
    }
}

} // verus!
