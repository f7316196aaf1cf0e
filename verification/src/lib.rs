pub mod text;
pub mod pattern;
pub mod scan;
pub mod tokens;
pub mod naming;
pub mod identity;
pub mod movies;
pub mod episode;
pub mod tv;
pub mod tvmaze;
pub mod fsops;
pub mod titles;
pub mod sim;
pub mod order;
pub mod shows;
pub mod jobs;
pub mod showbook;
