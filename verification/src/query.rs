use vstd::prelude::*;

use crate::errors::QueryError;
use crate::sgf::GameNode;
use crate::sgf_traversal::{
    is_var_root, rec_of, roots_cut, spec_traversal, spec_variation_nodes, variation_nodes,
    variation_roots, variation_seen, SgfTraversalNode, TravRec,
};

verus! {

/// The index of the last game in a collection.
pub fn query_game_index(collection: &Vec<GameNode>) -> (r: Result<usize, QueryError>)
    ensures
        collection@.len() == 0 ==> r == Err::<usize, QueryError>(QueryError::GameNotFound),
        collection@.len() > 0 ==> r == Ok::<usize, QueryError>((collection@.len() - 1) as usize),
{
    if collection.len() == 0 {
        Err(QueryError::GameNotFound)
    } else {
        Ok(collection.len() - 1)
    }
}

/// The last variation id assigned anywhere in one game's tree.
pub fn query_variation_index(collection: &Vec<GameNode>, game_number: u64) -> (r: Result<
    u64,
    QueryError,
>)
    requires
        forall|i: int|
            0 <= i < collection@.len() ==> (#[trigger] collection@[i]).count() <= u64::MAX,
    ensures
        game_number >= collection@.len() ==> r == Err::<u64, QueryError>(QueryError::GameNotFound),
        game_number < collection@.len() ==> {
            let roots = spec_traversal(collection@[game_number as int]).filter(
                |t: TravRec| is_var_root(t),
            );
            if roots.len() == 0 {
                r == Err::<u64, QueryError>(QueryError::VariationNotFound)
            } else {
                r is Ok && r->Ok_0 as int == roots.last().variation
            }
        },
{
    if game_number >= collection.len() as u64 {
        return Err(QueryError::GameNotFound);
    }
    let sgf_node = &collection[game_number as usize];
    let roots = variation_roots(sgf_node);
    if roots.len() == 0 {
        proof {
            assert(roots@.map_values(|n: SgfTraversalNode| rec_of(n)).len() == 0);
        }
        Err(QueryError::VariationNotFound)
    } else {
        let last = &roots[roots.len() - 1];
        proof {
            let m = roots@.map_values(|n: SgfTraversalNode| rec_of(n));
            assert(m.last() == rec_of(roots@[roots@.len() - 1]));
        }
        Ok(last.variation)
    }
}

/// The index of the last node of one variation of one game.
pub fn query_node_index(collection: &Vec<GameNode>, game_number: u64, variation: u64) -> (r: Result<
    usize,
    QueryError,
>)
    requires
        forall|i: int|
            0 <= i < collection@.len() ==> (#[trigger] collection@[i]).count() <= u64::MAX,
    ensures
        game_number >= collection@.len() ==> r == Err::<usize, QueryError>(
            QueryError::GameNotFound,
        ),
        game_number < collection@.len() ==> {
            let full = spec_traversal(collection@[game_number as int]);
            if !variation_seen(roots_cut(full, variation as int), variation as int) {
                r == Err::<usize, QueryError>(QueryError::VariationNotFound)
            } else {
                let nodes = spec_variation_nodes(full, variation as int);
                if nodes.len() == 0 {
                    r == Err::<usize, QueryError>(QueryError::VariationNotFound)
                } else {
                    r is Ok && r->Ok_0 as int == nodes.len() - 1
                }
            }
        },
{
    if game_number >= collection.len() as u64 {
        return Err(QueryError::GameNotFound);
    }
    let sgf_node = &collection[game_number as usize];
    match variation_nodes(sgf_node, variation) {
        Err(_) => Err(QueryError::VariationNotFound),
        Ok(nodes) => {
            proof {
                assert(nodes@.map_values(|n: SgfTraversalNode| rec_of(n)).len() == nodes@.len());
            }
            if nodes.len() == 0 {
                Err(QueryError::VariationNotFound)
            } else {
                Ok(nodes.len() - 1)
            }
        },
    }
}

} // verus!
