//! The fixed tables of the wire format: length codes 257..=285 and distance
//! codes 0..=29, each mapping to a base value and a count of extra bits, and
//! the order in which the code-length alphabet's lengths arrive.

use vstd::prelude::*;

verus! {

/// Base length and extra-bit count of length symbol `sym` (257..=285).
pub open spec fn spec_length_entry(sym: nat) -> (u16, u8) {
    if sym == 257 { (3, 0) }
    else if sym == 258 { (4, 0) }
    else if sym == 259 { (5, 0) }
    else if sym == 260 { (6, 0) }
    else if sym == 261 { (7, 0) }
    else if sym == 262 { (8, 0) }
    else if sym == 263 { (9, 0) }
    else if sym == 264 { (10, 0) }
    else if sym == 265 { (11, 1) }
    else if sym == 266 { (13, 1) }
    else if sym == 267 { (15, 1) }
    else if sym == 268 { (17, 1) }
    else if sym == 269 { (19, 2) }
    else if sym == 270 { (23, 2) }
    else if sym == 271 { (27, 2) }
    else if sym == 272 { (31, 2) }
    else if sym == 273 { (35, 3) }
    else if sym == 274 { (43, 3) }
    else if sym == 275 { (51, 3) }
    else if sym == 276 { (59, 3) }
    else if sym == 277 { (67, 4) }
    else if sym == 278 { (83, 4) }
    else if sym == 279 { (99, 4) }
    else if sym == 280 { (115, 4) }
    else if sym == 281 { (131, 5) }
    else if sym == 282 { (163, 5) }
    else if sym == 283 { (195, 5) }
    else if sym == 284 { (227, 5) }
    else { (258, 0) }
}

/// Base distance and extra-bit count of distance symbol `sym` (0..=29).
pub open spec fn spec_dist_entry(sym: nat) -> (u16, u8) {
    if sym == 0 { (1, 0) }
    else if sym == 1 { (2, 0) }
    else if sym == 2 { (3, 0) }
    else if sym == 3 { (4, 0) }
    else if sym == 4 { (5, 1) }
    else if sym == 5 { (7, 1) }
    else if sym == 6 { (9, 2) }
    else if sym == 7 { (13, 2) }
    else if sym == 8 { (17, 3) }
    else if sym == 9 { (25, 3) }
    else if sym == 10 { (33, 4) }
    else if sym == 11 { (49, 4) }
    else if sym == 12 { (65, 5) }
    else if sym == 13 { (97, 5) }
    else if sym == 14 { (129, 6) }
    else if sym == 15 { (193, 6) }
    else if sym == 16 { (257, 7) }
    else if sym == 17 { (385, 7) }
    else if sym == 18 { (513, 8) }
    else if sym == 19 { (769, 8) }
    else if sym == 20 { (1025, 9) }
    else if sym == 21 { (1537, 9) }
    else if sym == 22 { (2049, 10) }
    else if sym == 23 { (3073, 10) }
    else if sym == 24 { (4097, 11) }
    else if sym == 25 { (6145, 11) }
    else if sym == 26 { (8193, 12) }
    else if sym == 27 { (12289, 12) }
    else if sym == 28 { (16385, 13) }
    else { (24577, 13) }
}

/// The symbol of the code-length alphabet whose length arrives `i`-th
/// (0..=18) in a dynamic block header.
pub open spec fn spec_hclen_order(i: nat) -> u16 {
    if i == 0 { 16 }
    else if i == 1 { 17 }
    else if i == 2 { 18 }
    else if i == 3 { 0 }
    else if i == 4 { 8 }
    else if i == 5 { 7 }
    else if i == 6 { 9 }
    else if i == 7 { 6 }
    else if i == 8 { 10 }
    else if i == 9 { 5 }
    else if i == 10 { 11 }
    else if i == 11 { 4 }
    else if i == 12 { 12 }
    else if i == 13 { 3 }
    else if i == 14 { 13 }
    else if i == 15 { 2 }
    else if i == 16 { 14 }
    else { 15 }
}

pub fn length_entry(sym: u16) -> (e: (u16, u8))
    requires
        257 <= sym <= 285,
    ensures
        e == spec_length_entry(sym as nat),
{
    if sym == 257 { (3, 0) }
    else if sym == 258 { (4, 0) }
    else if sym == 259 { (5, 0) }
    else if sym == 260 { (6, 0) }
    else if sym == 261 { (7, 0) }
    else if sym == 262 { (8, 0) }
    else if sym == 263 { (9, 0) }
    else if sym == 264 { (10, 0) }
    else if sym == 265 { (11, 1) }
    else if sym == 266 { (13, 1) }
    else if sym == 267 { (15, 1) }
    else if sym == 268 { (17, 1) }
    else if sym == 269 { (19, 2) }
    else if sym == 270 { (23, 2) }
    else if sym == 271 { (27, 2) }
    else if sym == 272 { (31, 2) }
    else if sym == 273 { (35, 3) }
    else if sym == 274 { (43, 3) }
    else if sym == 275 { (51, 3) }
    else if sym == 276 { (59, 3) }
    else if sym == 277 { (67, 4) }
    else if sym == 278 { (83, 4) }
    else if sym == 279 { (99, 4) }
    else if sym == 280 { (115, 4) }
    else if sym == 281 { (131, 5) }
    else if sym == 282 { (163, 5) }
    else if sym == 283 { (195, 5) }
    else if sym == 284 { (227, 5) }
    else { (258, 0) }
}

pub fn dist_entry(sym: u16) -> (e: (u16, u8))
    requires
        sym <= 29,
    ensures
        e == spec_dist_entry(sym as nat),
{
    if sym == 0 { (1, 0) }
    else if sym == 1 { (2, 0) }
    else if sym == 2 { (3, 0) }
    else if sym == 3 { (4, 0) }
    else if sym == 4 { (5, 1) }
    else if sym == 5 { (7, 1) }
    else if sym == 6 { (9, 2) }
    else if sym == 7 { (13, 2) }
    else if sym == 8 { (17, 3) }
    else if sym == 9 { (25, 3) }
    else if sym == 10 { (33, 4) }
    else if sym == 11 { (49, 4) }
    else if sym == 12 { (65, 5) }
    else if sym == 13 { (97, 5) }
    else if sym == 14 { (129, 6) }
    else if sym == 15 { (193, 6) }
    else if sym == 16 { (257, 7) }
    else if sym == 17 { (385, 7) }
    else if sym == 18 { (513, 8) }
    else if sym == 19 { (769, 8) }
    else if sym == 20 { (1025, 9) }
    else if sym == 21 { (1537, 9) }
    else if sym == 22 { (2049, 10) }
    else if sym == 23 { (3073, 10) }
    else if sym == 24 { (4097, 11) }
    else if sym == 25 { (6145, 11) }
    else if sym == 26 { (8193, 12) }
    else if sym == 27 { (12289, 12) }
    else if sym == 28 { (16385, 13) }
    else { (24577, 13) }
}

pub fn hclen_order(i: usize) -> (s: u16)
    requires
        i <= 18,
    ensures
        s == spec_hclen_order(i as nat),
        s <= 18,
{
    if i == 0 { 16 }
    else if i == 1 { 17 }
    else if i == 2 { 18 }
    else if i == 3 { 0 }
    else if i == 4 { 8 }
    else if i == 5 { 7 }
    else if i == 6 { 9 }
    else if i == 7 { 6 }
    else if i == 8 { 10 }
    else if i == 9 { 5 }
    else if i == 10 { 11 }
    else if i == 11 { 4 }
    else if i == 12 { 12 }
    else if i == 13 { 3 }
    else if i == 14 { 13 }
    else if i == 15 { 2 }
    else if i == 16 { 14 }
    else { 15 }
}

} // verus!
