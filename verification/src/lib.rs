//! Finds the words of a wordlist that can be written with hexadecimal
//! glyphs, and optionally renders each such word as a hex-looking string.
//!
//! Thirteen lowercase letters have a glyph: a,b,c,d,e,f map to their
//! uppercase forms, and g,i,l,o,s,t,z map to the digits 6,1,1,0,5,7,2.
//! A word qualifies when every one of its characters is such a letter.

pub mod letters;
pub mod pipeline;
pub mod sorting;
pub mod trim;
pub mod words;
