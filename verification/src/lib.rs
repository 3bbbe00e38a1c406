//! An engine for a four-player worker-placement game on five turning gears.
//!
//! A position is one plain value, `state::GameState`. What a worker can do on a
//! space is a list of choices (`spaces`, `options`), a choice is a list of effects
//! (`effect`), and a move puts workers down or picks them up (`moves`). Lists are
//! generated in a fixed order, and a list's contract is the list itself, so that
//! what generation, pruning and sampling promise of each other can be proved:
//! every generated move is legal (`affordable`), and what pruning drops is never
//! missed (`dominance`).
//!
//! Above the game stand two searches: alpha-beta over whole turns (`search`), and
//! a tree search over the steps of a turn (`arena`, `descent`, `turnlines`). What
//! they find is written to fixed-size records (`record`, `codec`), and what is
//! learned from those comes back as a checkpoint (`bundle`, `checkpoint`). What is
//! written reads back as it was.
//!
//! What all of this is for stands in modules of laws, in the terms of the game and
//! not of how an answer is found: what a move costs and does (`outcomes`), what
//! spaces offer and ask (`offers`, `costs`, `markets`), which moves there are
//! (`listing`, `reaching`, `choosing`, `draws`), what a position promises
//! (`prospects`), what a search settles (`bestplay`, `treework`, `ways`), what
//! bytes and words hold (`layout`, `parcels`, `filing`, `weights`), and how things
//! are spelled (`spelling`, `wording`, `figures`).

pub mod affordable;
pub mod agents;
pub mod arena;
pub mod bestplay;
pub mod book;
pub mod bundle;
pub mod checkpoint;
pub mod choosing;
pub mod codec;
pub mod commitment;
pub mod costs;
pub mod dates;
pub mod descent;
pub mod distinct;
pub mod dominance;
pub mod draws;
pub mod effect;
pub mod fields;
pub mod figures;
pub mod filing;
pub mod flow;
pub mod forward;
pub mod ids;
pub mod json;
pub mod layout;
pub mod legal;
pub mod listing;
pub mod lists;
pub mod markets;
pub mod mcts;
pub mod minimax;
pub mod moves;
pub mod movetext;
pub mod net;
pub mod nodekey;
pub mod offers;
pub mod options;
pub mod order;
pub mod outcomes;
pub mod parcels;
pub mod phase;
pub mod plan;
pub mod playable;
pub mod positions;
pub mod pricing;
pub mod prospects;
pub mod queue;
pub mod reaching;
pub mod record;
pub mod report;
pub mod research;
pub mod sampling;
pub mod schema;
pub mod search;
pub mod seen;
pub mod shards;
pub mod spaces;
pub mod specs;
pub mod spelling;
pub mod state;
pub mod steering;
pub mod text;
pub mod treework;
pub mod turnlines;
pub mod turns;
pub mod ways;
pub mod weights;
pub mod wording;
pub mod words;
