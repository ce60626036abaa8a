//! [`crate::EncodeStr`] for the fixed-width integers: decimal ASCII digits,
//! with a leading sign for negative signed values.
//!
//! One generic algorithm does the work for every width: the narrower types
//! widen to 64 bits and share the digit core of [`crate::decimal`].

use vstd::prelude::*;

use crate::EncodeStr;
use crate::decimal::{dec_rep, int_rep, u64_dec_len, i64_dec_len, write_u64_at, write_i64_at};
use crate::error::Error;

verus! {

impl EncodeStr for u8 {
    open spec fn encoding(&self) -> Seq<u8> {
        dec_rep(*self as nat)
    }

    open spec fn valid(&self) -> bool {
        true
    }

    fn len(&self) -> (n: usize) {
        u64_dec_len(*self as u64)
    }

    fn write_at(&self, buff: &mut [u8], at: usize) -> (r: Result<usize, Error>) {
        write_u64_at(*self as u64, buff, at)
    }
}

impl EncodeStr for u16 {
    open spec fn encoding(&self) -> Seq<u8> {
        dec_rep(*self as nat)
    }

    open spec fn valid(&self) -> bool {
        true
    }

    fn len(&self) -> (n: usize) {
        u64_dec_len(*self as u64)
    }

    fn write_at(&self, buff: &mut [u8], at: usize) -> (r: Result<usize, Error>) {
        write_u64_at(*self as u64, buff, at)
    }
}

impl EncodeStr for u32 {
    open spec fn encoding(&self) -> Seq<u8> {
        dec_rep(*self as nat)
    }

    open spec fn valid(&self) -> bool {
        true
    }

    fn len(&self) -> (n: usize) {
        u64_dec_len(*self as u64)
    }

    fn write_at(&self, buff: &mut [u8], at: usize) -> (r: Result<usize, Error>) {
        write_u64_at(*self as u64, buff, at)
    }
}

impl EncodeStr for u64 {
    open spec fn encoding(&self) -> Seq<u8> {
        dec_rep(*self as nat)
    }

    open spec fn valid(&self) -> bool {
        true
    }

    fn len(&self) -> (n: usize) {
        u64_dec_len(*self)
    }

    fn write_at(&self, buff: &mut [u8], at: usize) -> (r: Result<usize, Error>) {
        write_u64_at(*self, buff, at)
    }
}

impl EncodeStr for usize {
    open spec fn encoding(&self) -> Seq<u8> {
        dec_rep(*self as nat)
    }

    open spec fn valid(&self) -> bool {
        true
    }

    fn len(&self) -> (n: usize) {
        u64_dec_len(*self as u64)
    }

    fn write_at(&self, buff: &mut [u8], at: usize) -> (r: Result<usize, Error>) {
        write_u64_at(*self as u64, buff, at)
    }
}

impl EncodeStr for i8 {
    open spec fn encoding(&self) -> Seq<u8> {
        int_rep(*self as int)
    }

    open spec fn valid(&self) -> bool {
        true
    }

    fn len(&self) -> (n: usize) {
        i64_dec_len(*self as i64)
    }

    fn write_at(&self, buff: &mut [u8], at: usize) -> (r: Result<usize, Error>) {
        write_i64_at(*self as i64, buff, at)
    }
}

impl EncodeStr for i16 {
    open spec fn encoding(&self) -> Seq<u8> {
        int_rep(*self as int)
    }

    open spec fn valid(&self) -> bool {
        true
    }

    fn len(&self) -> (n: usize) {
        i64_dec_len(*self as i64)
    }

    fn write_at(&self, buff: &mut [u8], at: usize) -> (r: Result<usize, Error>) {
        write_i64_at(*self as i64, buff, at)
    }
}

impl EncodeStr for i32 {
    open spec fn encoding(&self) -> Seq<u8> {
        int_rep(*self as int)
    }

    open spec fn valid(&self) -> bool {
        true
    }

    fn len(&self) -> (n: usize) {
        i64_dec_len(*self as i64)
    }

    fn write_at(&self, buff: &mut [u8], at: usize) -> (r: Result<usize, Error>) {
        write_i64_at(*self as i64, buff, at)
    }
}

impl EncodeStr for i64 {
    open spec fn encoding(&self) -> Seq<u8> {
        int_rep(*self as int)
    }

    open spec fn valid(&self) -> bool {
        true
    }

    fn len(&self) -> (n: usize) {
        i64_dec_len(*self)
    }

    fn write_at(&self, buff: &mut [u8], at: usize) -> (r: Result<usize, Error>) {
        write_i64_at(*self, buff, at)
    }
}

impl EncodeStr for isize {
    open spec fn encoding(&self) -> Seq<u8> {
        int_rep(*self as int)
    }

    open spec fn valid(&self) -> bool {
        true
    }

    fn len(&self) -> (n: usize) {
        i64_dec_len(*self as i64)
    }

    fn write_at(&self, buff: &mut [u8], at: usize) -> (r: Result<usize, Error>) {
        write_i64_at(*self as i64, buff, at)
    }
}

} // verus!
