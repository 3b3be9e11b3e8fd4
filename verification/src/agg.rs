//! The public entry point: parse a pattern, then iterate or collect its
//! expanded names.

use vstd::prelude::*;
use vstd::string::StringExecFns;
use crate::expr::{
    expr_strings, nodeagg_expr, parse_spec, residual_start, str_views, NodeaggExpr, SubExprModel,
};
use crate::iter::NodeaggIterator;

verus! {

/// The single error kind of the parser: a short description and the
/// approximate character offset where parsing stopped.
#[derive(Debug, Clone)]
pub struct ParseNodeaggError {
    pub message: String,
    pub position: usize,
}

/// A parsed node expression, ready to be expanded any number of times.
#[derive(Debug)]
pub struct Nodeagg(NodeaggExpr);

impl View for Nodeagg {
    type V = Seq<Seq<SubExprModel>>;

    closed spec fn view(&self) -> Seq<Seq<SubExprModel>> {
        self.0@
    }
}

impl Nodeagg {
    /// Parses the pattern text: `Ok` exactly when the grammar accepts the
    /// whole input, `Err` otherwise, with a description of the trouble and
    /// its approximate offset; when a prefix parsed but input remains, the
    /// message quotes the leftover text.
    pub fn try_from(s: &str) -> (r: Result<Nodeagg, ParseNodeaggError>)
        ensures
            r matches Ok(n) ==> parse_spec(s@) == Some(n@),
            r is Err <==> parse_spec(s@) is None,
            r matches Err(e) ==> e.position <= s@.len() && e.message@.len() > 0,
            residual_start(s@) matches Some(k) ==> r matches Err(e2) && e2.position == k
                && e2.message@ == "string `"@ + s@.subrange(k, s@.len() as int)
                + "' still exists after parse"@,
    {
        match nodeagg_expr(s) {
            Ok(e) => Ok(Nodeagg(e)),
            Err(f) => Err(ParseNodeaggError { message: f.1, position: f.0 }),
        }
    }

    /// Starts a fresh, lazy, deduplicating iteration over the expanded
    /// names; each call replays the same sequence from the beginning.
    pub fn iter(&self) -> (r: NodeaggIterator)
        ensures
            r.future() == expr_strings(self@),
    {
        self.0.iter()
    }

    /// Expands the whole pattern at once into its list of distinct names.
    pub fn expand(&self) -> (r: Vec<String>)
        ensures
            str_views(r@) == expr_strings(self@),
    {
        let mut it = self.0.iter();
        let mut r: Vec<String> = Vec::new();
        loop
            invariant
                str_views(r@) + it.future() == expr_strings(self@),
            ensures
                str_views(r@) == expr_strings(self@),
            decreases it.future().len(),
        {
            let ghost prev = r@;
            let ghost prev_future = it.future();
            match it.next() {
                None => {
                    proof {
                        assert(str_views(r@) + it.future() =~= str_views(r@));
                    }
                    break;
                },
                Some(v) => {
                    let ghost vv = v@;
                    r.push(v);
                    proof {
                        assert(str_views(r@) =~= str_views(prev).push(vv));
                        assert(prev_future =~= seq![vv] + it.future());
                        assert(str_views(prev).push(vv) + it.future() =~= str_views(prev)
                            + prev_future);
                    }
                },
            }
        }
        r
    }
}

} // verus!
