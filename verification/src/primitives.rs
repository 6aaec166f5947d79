use crate::codec::FixedWidth;
use crate::wire::{
    be_bytes, be_value, fold_be, from_twos, lemma_be_bytes_len, lemma_be_value_bound,
    lemma_be_value_of_bytes, lemma_pow256_values, lemma_twos_inverse, twos,
};
use vstd::prelude::*;

verus! {

/// `abi_encode_packed` of alloy-sol-types on a `u16`: the packed form of an
/// unsigned integer is its 2 bytes, most significant first.
#[verifier::external_body]
fn packed_u16(x: u16) -> (out: Vec<u8>)
    ensures
        out@ == be_bytes(x as nat, 2),
{
    alloy_sol_types::SolValue::abi_encode_packed(&x)
}

/// `abi_encode_packed` of alloy-sol-types on a `u32`: the packed form of an
/// unsigned integer is its 4 bytes, most significant first.
#[verifier::external_body]
fn packed_u32(x: u32) -> (out: Vec<u8>)
    ensures
        out@ == be_bytes(x as nat, 4),
{
    alloy_sol_types::SolValue::abi_encode_packed(&x)
}

/// `abi_encode_packed` of alloy-sol-types on a `u64`: the packed form of an
/// unsigned integer is its 8 bytes, most significant first.
#[verifier::external_body]
fn packed_u64(x: u64) -> (out: Vec<u8>)
    ensures
        out@ == be_bytes(x as nat, 8),
{
    alloy_sol_types::SolValue::abi_encode_packed(&x)
}

/// `abi_encode_packed` of alloy-sol-types on a `u128`: the packed form of an
/// unsigned integer is its 16 bytes, most significant first.
#[verifier::external_body]
fn packed_u128(x: u128) -> (out: Vec<u8>)
    ensures
        out@ == be_bytes(x as nat, 16),
{
    alloy_sol_types::SolValue::abi_encode_packed(&x)
}

/// `abi_encode_packed` of alloy-sol-types on an `i8`: the packed form of a
/// signed integer is its two's complement in 1 byte, most significant first.
#[verifier::external_body]
fn packed_i8(x: i8) -> (out: Vec<u8>)
    ensures
        out@ == be_bytes(twos(x as int, 1), 1),
{
    alloy_sol_types::SolValue::abi_encode_packed(&x)
}

/// `abi_encode_packed` of alloy-sol-types on an `i16`: the packed form of a
/// signed integer is its two's complement in 2 bytes, most significant first.
#[verifier::external_body]
fn packed_i16(x: i16) -> (out: Vec<u8>)
    ensures
        out@ == be_bytes(twos(x as int, 2), 2),
{
    alloy_sol_types::SolValue::abi_encode_packed(&x)
}

/// `abi_encode_packed` of alloy-sol-types on an `i32`: the packed form of a
/// signed integer is its two's complement in 4 bytes, most significant first.
#[verifier::external_body]
fn packed_i32(x: i32) -> (out: Vec<u8>)
    ensures
        out@ == be_bytes(twos(x as int, 4), 4),
{
    alloy_sol_types::SolValue::abi_encode_packed(&x)
}

/// `abi_encode_packed` of alloy-sol-types on an `i64`: the packed form of a
/// signed integer is its two's complement in 8 bytes, most significant first.
#[verifier::external_body]
fn packed_i64(x: i64) -> (out: Vec<u8>)
    ensures
        out@ == be_bytes(twos(x as int, 8), 8),
{
    alloy_sol_types::SolValue::abi_encode_packed(&x)
}

/// `abi_encode_packed` of alloy-sol-types on an `i128`: the packed form of a
/// signed integer is its two's complement in 16 bytes, most significant first.
#[verifier::external_body]
fn packed_i128(x: i128) -> (out: Vec<u8>)
    ensures
        out@ == be_bytes(twos(x as int, 16), 16),
{
    alloy_sol_types::SolValue::abi_encode_packed(&x)
}

impl FixedWidth for u8 {
    open spec fn native() -> nat {
        1
    }

    open spec fn be(v: u8) -> Seq<u8> {
        be_bytes(v as nat, 1)
    }

    open spec fn of_be(bytes: Seq<u8>) -> u8 {
        be_value(bytes) as u8
    }

    fn native_bytes() -> (n: usize) {
        1
    }

    fn to_be_vec(&self) -> (out: Vec<u8>) {
        let mut out = Vec::new();
        out.push(*self);
        assert(out@ =~= be_bytes(*self as nat, 1)) by {
            reveal_with_fuel(be_bytes, 2);
        }
        out
    }

    fn from_be_slice(bytes: &[u8]) -> (v: Self) {
        proof {
            lemma_be_value_bound(bytes@);
            lemma_pow256_values();
        }
        fold_be(bytes) as u8
    }

    proof fn lemma_be_inverse(v: Self) {
        lemma_pow256_values();
        lemma_be_bytes_len(v as nat, 1);
        lemma_be_value_of_bytes(v as nat, 1);
    }
}

impl FixedWidth for u16 {
    open spec fn native() -> nat {
        2
    }

    open spec fn be(v: u16) -> Seq<u8> {
        be_bytes(v as nat, 2)
    }

    open spec fn of_be(bytes: Seq<u8>) -> u16 {
        be_value(bytes) as u16
    }

    fn native_bytes() -> (n: usize) {
        2
    }

    fn to_be_vec(&self) -> (out: Vec<u8>) {
        packed_u16(*self)
    }

    fn from_be_slice(bytes: &[u8]) -> (v: Self) {
        proof {
            lemma_be_value_bound(bytes@);
            lemma_pow256_values();
        }
        fold_be(bytes) as u16
    }

    proof fn lemma_be_inverse(v: Self) {
        lemma_pow256_values();
        lemma_be_bytes_len(v as nat, 2);
        lemma_be_value_of_bytes(v as nat, 2);
    }
}

impl FixedWidth for u32 {
    open spec fn native() -> nat {
        4
    }

    open spec fn be(v: u32) -> Seq<u8> {
        be_bytes(v as nat, 4)
    }

    open spec fn of_be(bytes: Seq<u8>) -> u32 {
        be_value(bytes) as u32
    }

    fn native_bytes() -> (n: usize) {
        4
    }

    fn to_be_vec(&self) -> (out: Vec<u8>) {
        packed_u32(*self)
    }

    fn from_be_slice(bytes: &[u8]) -> (v: Self) {
        proof {
            lemma_be_value_bound(bytes@);
            lemma_pow256_values();
        }
        fold_be(bytes) as u32
    }

    proof fn lemma_be_inverse(v: Self) {
        lemma_pow256_values();
        lemma_be_bytes_len(v as nat, 4);
        lemma_be_value_of_bytes(v as nat, 4);
    }
}

impl FixedWidth for u64 {
    open spec fn native() -> nat {
        8
    }

    open spec fn be(v: u64) -> Seq<u8> {
        be_bytes(v as nat, 8)
    }

    open spec fn of_be(bytes: Seq<u8>) -> u64 {
        be_value(bytes) as u64
    }

    fn native_bytes() -> (n: usize) {
        8
    }

    fn to_be_vec(&self) -> (out: Vec<u8>) {
        packed_u64(*self)
    }

    fn from_be_slice(bytes: &[u8]) -> (v: Self) {
        proof {
            lemma_be_value_bound(bytes@);
            lemma_pow256_values();
        }
        fold_be(bytes) as u64
    }

    proof fn lemma_be_inverse(v: Self) {
        lemma_pow256_values();
        lemma_be_bytes_len(v as nat, 8);
        lemma_be_value_of_bytes(v as nat, 8);
    }
}

impl FixedWidth for u128 {
    open spec fn native() -> nat {
        16
    }

    open spec fn be(v: u128) -> Seq<u8> {
        be_bytes(v as nat, 16)
    }

    open spec fn of_be(bytes: Seq<u8>) -> u128 {
        be_value(bytes) as u128
    }

    fn native_bytes() -> (n: usize) {
        16
    }

    fn to_be_vec(&self) -> (out: Vec<u8>) {
        packed_u128(*self)
    }

    fn from_be_slice(bytes: &[u8]) -> (v: Self) {
        proof {
            lemma_be_value_bound(bytes@);
            lemma_pow256_values();
        }
        fold_be(bytes) as u128
    }

    proof fn lemma_be_inverse(v: Self) {
        lemma_pow256_values();
        lemma_be_bytes_len(v as nat, 16);
        lemma_be_value_of_bytes(v as nat, 16);
    }
}

impl FixedWidth for i8 {
    open spec fn native() -> nat {
        1
    }

    open spec fn be(v: i8) -> Seq<u8> {
        be_bytes(twos(v as int, 1), 1)
    }

    open spec fn of_be(bytes: Seq<u8>) -> i8 {
        from_twos(be_value(bytes), 1) as i8
    }

    fn native_bytes() -> (n: usize) {
        1
    }

    fn to_be_vec(&self) -> (out: Vec<u8>) {
        packed_i8(*self)
    }

    fn from_be_slice(bytes: &[u8]) -> (v: Self) {
        proof {
            lemma_be_value_bound(bytes@);
            lemma_pow256_values();
        }
        let raw: u128 = fold_be(bytes);
        if raw < 0x80 {
            raw as i8
        } else {
            ((raw - 0x80) as i8) + i8::MIN
        }
    }

    proof fn lemma_be_inverse(v: Self) {
        lemma_pow256_values();
        lemma_twos_inverse(v as int, 1);
        lemma_be_bytes_len(twos(v as int, 1), 1);
        lemma_be_value_of_bytes(twos(v as int, 1), 1);
    }
}

impl FixedWidth for i16 {
    open spec fn native() -> nat {
        2
    }

    open spec fn be(v: i16) -> Seq<u8> {
        be_bytes(twos(v as int, 2), 2)
    }

    open spec fn of_be(bytes: Seq<u8>) -> i16 {
        from_twos(be_value(bytes), 2) as i16
    }

    fn native_bytes() -> (n: usize) {
        2
    }

    fn to_be_vec(&self) -> (out: Vec<u8>) {
        packed_i16(*self)
    }

    fn from_be_slice(bytes: &[u8]) -> (v: Self) {
        proof {
            lemma_be_value_bound(bytes@);
            lemma_pow256_values();
        }
        let raw: u128 = fold_be(bytes);
        if raw < 0x8000 {
            raw as i16
        } else {
            ((raw - 0x8000) as i16) + i16::MIN
        }
    }

    proof fn lemma_be_inverse(v: Self) {
        lemma_pow256_values();
        lemma_twos_inverse(v as int, 2);
        lemma_be_bytes_len(twos(v as int, 2), 2);
        lemma_be_value_of_bytes(twos(v as int, 2), 2);
    }
}

impl FixedWidth for i32 {
    open spec fn native() -> nat {
        4
    }

    open spec fn be(v: i32) -> Seq<u8> {
        be_bytes(twos(v as int, 4), 4)
    }

    open spec fn of_be(bytes: Seq<u8>) -> i32 {
        from_twos(be_value(bytes), 4) as i32
    }

    fn native_bytes() -> (n: usize) {
        4
    }

    fn to_be_vec(&self) -> (out: Vec<u8>) {
        packed_i32(*self)
    }

    fn from_be_slice(bytes: &[u8]) -> (v: Self) {
        proof {
            lemma_be_value_bound(bytes@);
            lemma_pow256_values();
        }
        let raw: u128 = fold_be(bytes);
        if raw < 0x8000_0000 {
            raw as i32
        } else {
            ((raw - 0x8000_0000) as i32) + i32::MIN
        }
    }

    proof fn lemma_be_inverse(v: Self) {
        lemma_pow256_values();
        lemma_twos_inverse(v as int, 4);
        lemma_be_bytes_len(twos(v as int, 4), 4);
        lemma_be_value_of_bytes(twos(v as int, 4), 4);
    }
}

impl FixedWidth for i64 {
    open spec fn native() -> nat {
        8
    }

    open spec fn be(v: i64) -> Seq<u8> {
        be_bytes(twos(v as int, 8), 8)
    }

    open spec fn of_be(bytes: Seq<u8>) -> i64 {
        from_twos(be_value(bytes), 8) as i64
    }

    fn native_bytes() -> (n: usize) {
        8
    }

    fn to_be_vec(&self) -> (out: Vec<u8>) {
        packed_i64(*self)
    }

    fn from_be_slice(bytes: &[u8]) -> (v: Self) {
        proof {
            lemma_be_value_bound(bytes@);
            lemma_pow256_values();
        }
        let raw: u128 = fold_be(bytes);
        if raw < 0x8000_0000_0000_0000 {
            raw as i64
        } else {
            ((raw - 0x8000_0000_0000_0000) as i64) + i64::MIN
        }
    }

    proof fn lemma_be_inverse(v: Self) {
        lemma_pow256_values();
        lemma_twos_inverse(v as int, 8);
        lemma_be_bytes_len(twos(v as int, 8), 8);
        lemma_be_value_of_bytes(twos(v as int, 8), 8);
    }
}

impl FixedWidth for i128 {
    open spec fn native() -> nat {
        16
    }

    open spec fn be(v: i128) -> Seq<u8> {
        be_bytes(twos(v as int, 16), 16)
    }

    open spec fn of_be(bytes: Seq<u8>) -> i128 {
        from_twos(be_value(bytes), 16) as i128
    }

    fn native_bytes() -> (n: usize) {
        16
    }

    fn to_be_vec(&self) -> (out: Vec<u8>) {
        packed_i128(*self)
    }

    fn from_be_slice(bytes: &[u8]) -> (v: Self) {
        proof {
            lemma_be_value_bound(bytes@);
            lemma_pow256_values();
        }
        let raw: u128 = fold_be(bytes);
        if raw < 0x8000_0000_0000_0000_0000_0000_0000_0000 {
            raw as i128
        } else {
            ((raw - 0x8000_0000_0000_0000_0000_0000_0000_0000) as i128) + i128::MIN
        }
    }

    proof fn lemma_be_inverse(v: Self) {
        lemma_pow256_values();
        lemma_twos_inverse(v as int, 16);
        lemma_be_bytes_len(twos(v as int, 16), 16);
        lemma_be_value_of_bytes(twos(v as int, 16), 16);
    }
}

} // verus!
