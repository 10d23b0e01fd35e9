pub mod changes;
pub mod levenshtein;
