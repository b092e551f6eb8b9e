//! Helpers for trying the library out: random names for scratch files, and
//! the parameters of the runs of walks that a graph is tried with.

use vstd::prelude::*;
use vstd::string::StrSliceExecFns;
use vstd::string::StringExecFns;
use rand::Rng;
use crate::errors::GraphError;
use crate::graph::Graph;
use crate::text::push_char;
use crate::types::{NodeT, WeightT};
use crate::walks_parameters::{WalkWeights, WalksParameters};

verus! {

/// The generator of random numbers that `rand` keeps for each thread.
#[verifier::external_type_specification]
#[verifier::external_body]
pub struct ExThreadRng(rand::rngs::ThreadRng);

/// `rand::thread_rng`: the generator of the calling thread.
#[verifier::external_body]
fn thread_generator() -> rand::rngs::ThreadRng {
    rand::thread_rng()
}

/// `Rng::gen_range` from zero: a number below `bound`, which may be any of
/// them. The crate refuses an empty range.
#[verifier::external_body]
fn draw_below(rng: &mut rand::rngs::ThreadRng, bound: usize) -> (i: usize)
    requires
        bound > 0,
    ensures
        i < bound,
{
    rng.gen_range(0, bound)
}

/// The characters that random names are made of.
pub open spec fn charset() -> Seq<char> {
    "ABCDEFGHIJKLMNOPQRSTUVWXYZabcdefghijklmnopqrstuvwxyz0123456789()*&^%$#@!~"@
}

/// The directory that scratch files go to.
pub open spec fn default_path() -> Seq<char> {
    "/tmp/"@
}

/// A random name of `len` characters.
pub fn random_string(len: usize) -> (name: String)
    ensures
        name@.len() == len,
        forall|i: int| 0 <= i < len ==> charset().contains(#[trigger] name@[i]),
{
    let letters = "ABCDEFGHIJKLMNOPQRSTUVWXYZabcdefghijklmnopqrstuvwxyz0123456789()*&^%$#@!~";
    proof {
        reveal_strlit("ABCDEFGHIJKLMNOPQRSTUVWXYZabcdefghijklmnopqrstuvwxyz0123456789()*&^%$#@!~");
    }
    let count = letters.unicode_len();
    let mut rng = thread_generator();
    let mut name = String::new();
    let mut i: usize = 0;
    while i < len
        invariant
            i <= len,
            letters@ == charset(),
            count == letters@.len(),
            count > 0,
            name@.len() == i,
            forall|k: int| 0 <= k < i ==> charset().contains(#[trigger] name@[k]),
        decreases len - i,
    {
        let at = draw_below(&mut rng, count);
        let c = letters.get_char(at);
        let ghost before = name@;
        push_char(&mut name, c);
        proof {
            assert(letters@[at as int] == c);
            assert forall|k: int| 0 <= k < i + 1 implies charset().contains(#[trigger] name@[k]) by {
                if k < i {
                    assert(name@[k] == before[k]);
                }
            }
        }
        i += 1;
    }
    name
}

/// The path of a scratch file with a random name of 64 characters.
pub fn random_path() -> (path: String)
    ensures
        path@.len() == default_path().len() + 64,
        path@.subrange(0, default_path().len() as int) == default_path(),
        forall|i: int|
            default_path().len() <= i < path@.len() ==> charset().contains(#[trigger] path@[i]),
{
    let name = random_string(64);
    let mut path = String::from_str("/tmp/");
    path.append(name.as_str());
    proof {
        assert(path@.subrange(0, default_path().len() as int) =~= default_path());
        assert forall|i: int| default_path().len() <= i < path@.len() implies charset().contains(
            #[trigger] path@[i],
        ) by {
            assert(path@[i] == name@[i - default_path().len()]);
        }
    }
    path
}

/// The bit pattern of the weight two.
pub const WEIGHT_TWO: WeightT = 0x4000_0000;

/// The parameters of a first-order run that a graph is tried with: walks of
/// fifty nodes, one from each start, with random state 43, without biases
/// or limit, renumbered by the dense mapping of the graph.
pub fn first_order_walker(graph: &Graph) -> (r: Result<WalksParameters, GraphError>)
    requires
        graph.wf(),
    ensures
        r is Ok,
        r matches Ok(p) ==> {
            &&& p.single_walk_parameters.length == 50
            &&& p.single_walk_parameters.weights.is_first_order()
            &&& p.single_walk_parameters.max_neighbours is None
            &&& p.iterations == 1
            &&& p.random_state == 43
            &&& p.dense_node_mapping matches Some(mapping) && graph.maps_densely(mapping@)
        },
{
    let p = WalksParameters::new(50)?;
    let p = p.set_iterations(Some(1))?;
    let p = p.set_random_state(Some(43));
    let mapping = graph.get_dense_node_mapping();
    let p = p.set_dense_node_mapping(Some(mapping));
    proof {
        assert(p.dense_node_mapping == Some(mapping));
    }
    Ok(p)
}

/// The parameters of a second-order run that a graph is tried with: walks
/// of fifty nodes, one from each start, with random state 43 and every bias
/// two, without limit or mapping.
pub fn second_order_walker(graph: &Graph) -> (r: Result<WalksParameters, GraphError>)
    ensures
        r is Ok,
        r matches Ok(p) ==> {
            &&& p.single_walk_parameters.length == 50
            &&& p.single_walk_parameters.weights == (WalkWeights {
                return_weight: WEIGHT_TWO,
                explore_weight: WEIGHT_TWO,
                change_node_type_weight: WEIGHT_TWO,
                change_edge_type_weight: WEIGHT_TWO,
            })
            &&& p.single_walk_parameters.max_neighbours is None
            &&& p.iterations == 1
            &&& p.random_state == 43
            &&& p.dense_node_mapping is None
        },
{
    let weights = WalkWeights {
        return_weight: WEIGHT_TWO,
        explore_weight: WEIGHT_TWO,
        change_node_type_weight: WEIGHT_TWO,
        change_edge_type_weight: WEIGHT_TWO,
    };
    let p = WalksParameters::new(50)?;
    let p = p.set_iterations(Some(1))?;
    let p = p.set_weights(weights)?;
    Ok(p.set_random_state(Some(43)))
}

} // verus!
