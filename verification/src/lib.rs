pub mod arith;
pub mod rotation;
pub mod coarse_rotation;
pub mod vector;
pub mod geometry;
pub mod state;
pub mod contact;
pub mod shape;
pub mod motion;
pub mod powder;
pub mod liquid;
pub mod fx;
pub mod raster;
pub mod player;
pub mod journal;
pub mod schedule;
pub mod block;
pub mod rounds;
pub mod islands;
pub mod reshape;
pub mod parts;
pub mod exchange;
pub mod proposal;
pub mod bodies;
pub mod buoyancy;
pub mod settling;
pub mod gas;
pub mod classify;
pub mod commit;
