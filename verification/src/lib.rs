//! Kingdom.

pub mod arrivals;
pub mod atlas;
pub mod battle;
pub mod beginnings;
pub mod behavior;
pub mod births;
pub mod breaches;
pub mod camera;
pub mod camps;
pub mod capture;
pub mod casualties;
pub mod centres;
pub mod chores;
pub mod chunk;
pub mod crowding;
pub mod draw;
pub mod duties;
pub mod errands;
pub mod farmer;
pub mod flags;
pub mod float;
pub mod footing;
pub mod founding;
pub mod gallery;
pub mod game;
pub mod grid;
pub mod knight;
pub mod melee;
pub mod noise;
pub mod outlook;
pub mod packing;
pub mod pathfind;
pub mod people;
pub mod pixels;
pub mod pursuit;
pub mod refuge;
pub mod register;
pub mod rng;
pub mod rounding;
pub mod roundtrip;
pub mod rules;
pub mod save;
pub mod scatter;
pub mod seed;
pub mod session;
pub mod showing;
pub mod soundness;
pub mod spoils;
pub mod survey;
pub mod terrain;
pub mod ticks;
pub mod turn;
pub mod unit;
pub mod vec2;
pub mod village;
pub mod works;
pub mod world;
