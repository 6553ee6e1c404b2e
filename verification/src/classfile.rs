//! Parser for the subset of the JVM classfile format ([JVMS §4]) that the
//! server needs: enough of the constant pool to resolve class and member
//! names, `this_class`/`super_class`/`interfaces`, and field/method
//! name+descriptor+flags. Bytecode (`Code` attribute bodies), annotations, and
//! generic `Signature` attributes are deliberately unparsed: skipped by their
//! declared length, never interpreted.
//!
//! [JVMS §4]: https://docs.oracle.com/javase/specs/jvms/se21/html/jvms-4.html

use crate::text::{lemma_texts_push, opt_text, same_text, texts};
use vstd::prelude::*;
use vstd::utf8::{char_is_scalar, char_u32_cast, encode_scalar, encode_utf8};

verus! {

pub const MAGIC: u32 = 0xCAFE_BABE;

pub const ACC_PUBLIC: u16 = 0x0001;

pub const ACC_PROTECTED: u16 = 0x0004;

pub const ACC_STATIC: u16 = 0x0008;

pub const ACC_INTERFACE: u16 = 0x0200;

pub const ACC_ABSTRACT: u16 = 0x0400;

pub const ACC_SYNTHETIC: u16 = 0x1000;

pub const ACC_ANNOTATION: u16 = 0x2000;

pub const ACC_ENUM: u16 = 0x4000;

pub const ACC_BRIDGE: u16 = 0x0040;

#[derive(Debug, PartialEq, Eq, Structural, Clone, Copy)]
pub enum ClassFileError {
    InvalidMagic,
    UnexpectedEof,
    InvalidConstantPoolIndex,
    InvalidConstantPoolTag(u8),
    InvalidModifiedUtf8,
}

/// A field or a method: its name, its descriptor and its access flags.
#[derive(Debug, Clone, PartialEq)]
pub struct Member {
    pub name: String,
    pub descriptor: String,
    pub access_flags: u16,
}

#[derive(Debug, Clone, PartialEq)]
pub struct ClassFile {
    pub access_flags: u16,
    pub this_class: String,
    pub super_class: Option<String>,
    pub interfaces: Vec<String>,
    pub fields: Vec<Member>,
    pub methods: Vec<Member>,
}

/// What a [`Member`] says, as mathematical values.
pub struct MemberView {
    pub name: Seq<char>,
    pub descriptor: Seq<char>,
    pub access_flags: u16,
}

/// What a [`ClassFile`] says, as mathematical values.
pub struct ClassFileView {
    pub access_flags: u16,
    pub this_class: Seq<char>,
    pub super_class: Option<Seq<char>>,
    pub interfaces: Seq<Seq<char>>,
    pub fields: Seq<MemberView>,
    pub methods: Seq<MemberView>,
}

impl View for Member {
    type V = MemberView;

    open spec fn view(&self) -> MemberView {
        MemberView {
            name: self.name@,
            descriptor: self.descriptor@,
            access_flags: self.access_flags,
        }
    }
}

/// The members of a list, as mathematical values.
pub open spec fn members(list: Seq<Member>) -> Seq<MemberView> {
    list.map_values(|m: Member| m@)
}

impl View for ClassFile {
    type V = ClassFileView;

    open spec fn view(&self) -> ClassFileView {
        ClassFileView {
            access_flags: self.access_flags,
            this_class: self.this_class@,
            super_class: opt_text(self.super_class),
            interfaces: texts(self.interfaces@),
            fields: members(self.fields@),
            methods: members(self.methods@),
        }
    }
}

impl ClassFile {
    pub fn is_interface(&self) -> (r: bool)
        ensures
            r == (self.access_flags & ACC_INTERFACE != 0),
    {
        self.access_flags & ACC_INTERFACE != 0
    }

    pub fn is_enum(&self) -> (r: bool)
        ensures
            r == (self.access_flags & ACC_ENUM != 0),
    {
        self.access_flags & ACC_ENUM != 0
    }

    pub fn is_annotation(&self) -> (r: bool)
        ensures
            r == (self.access_flags & ACC_ANNOTATION != 0),
    {
        self.access_flags & ACC_ANNOTATION != 0
    }
}

// ---------------------------------------------------------------------------
// Modified UTF-8
// ---------------------------------------------------------------------------

/// The code unit that three bytes in the form `1110xxxx 10xxxxxx 10xxxxxx` hold.
pub open spec fn unit3(b0: u8, b1: u8, b2: u8) -> int {
    (b0 as int % 16) * 4096 + (b1 as int % 64) * 64 + (b2 as int % 64)
}

pub open spec fn is_high_surrogate(unit: int) -> bool {
    0xD800 <= unit <= 0xDBFF
}

pub open spec fn is_low_surrogate(unit: int) -> bool {
    0xDC00 <= unit <= 0xDFFF
}

/// The code point that the bytes start with and the number of bytes it takes,
/// or `None` where the bytes do not start with one: a leading byte below `0x80`
/// stands for itself, `110xxxxx` starts two bytes, `1110xxxx` starts three, and
/// a high surrogate goes with the low surrogate in the next three bytes.
pub open spec fn first_modified(bytes: Seq<u8>) -> Option<(int, int)>
    recommends
        bytes.len() > 0,
{
    let b0 = bytes[0];
    if b0 < 0x80 {
        Some((b0 as int, 1))
    } else if 0xC0 <= b0 < 0xE0 {
        if bytes.len() < 2 {
            None
        } else {
            Some(((b0 as int % 32) * 64 + (bytes[1] as int % 64), 2))
        }
    } else if 0xE0 <= b0 < 0xF0 {
        if bytes.len() < 3 {
            None
        } else {
            let unit = unit3(b0, bytes[1], bytes[2]);
            if is_high_surrogate(unit) {
                if bytes.len() < 6 || !(0xE0 <= bytes[3] < 0xF0) {
                    None
                } else {
                    let low = unit3(bytes[3], bytes[4], bytes[5]);
                    if is_low_surrogate(low) {
                        Some((0x10000 + (unit - 0xD800) * 1024 + (low - 0xDC00), 6))
                    } else {
                        None
                    }
                }
            } else if is_low_surrogate(unit) {
                None
            } else {
                Some((unit, 3))
            }
        }
    } else {
        None
    }
}

/// The characters that bytes in modified UTF-8 stand for, or `None` where they
/// are not in that form.
pub open spec fn modified_utf8(bytes: Seq<u8>) -> Option<Seq<char>>
    decreases bytes.len(),
{
    if bytes.len() == 0 {
        Some(Seq::empty())
    } else {
        match first_modified(bytes) {
            None => None,
            Some((value, width)) => match modified_utf8(bytes.skip(width)) {
                None => None,
                Some(rest) => Some(seq![value as u32 as char] + rest),
            },
        }
    }
}

fn unit_of(b0: u8, b1: u8, b2: u8) -> (r: u32)
    ensures
        r == unit3(b0, b1, b2),
        r < 0x10000,
{
    (b0 as u32 % 16) * 4096 + (b1 as u32 % 64) * 64 + (b2 as u32 % 64)
}

/// Decodes the JVM's "modified UTF-8" ([JVMS §4.4.7]): identical to standard
/// UTF-8 except `NUL` is encoded as the two-byte sequence `0xC0 0x80` (never
/// as a literal `0x00`) and characters outside the Basic Multilingual Plane
/// are encoded as a surrogate pair, each half individually encoded as if it
/// were its own three-byte codepoint, rather than as a single four-byte
/// sequence.
///
/// [JVMS §4.4.7]: https://docs.oracle.com/javase/specs/jvms/se21/html/jvms-4.html#jvms-4.4.7
pub fn decode_modified_utf8(bytes: &[u8]) -> (r: Result<String, ClassFileError>)
    ensures
        match r {
            Ok(s) => modified_utf8(bytes@) == Some(s@),
            Err(e) => modified_utf8(bytes@) is None && e == ClassFileError::InvalidModifiedUtf8,
        },
{
    let mut result = String::new();
    let mut i: usize = 0;
    assert(bytes@.skip(0) =~= bytes@);
    while i < bytes.len()
        invariant
            i <= bytes@.len(),
            match modified_utf8(bytes@.skip(i as int)) {
                Some(rest) => modified_utf8(bytes@) == Some(result@ + rest),
                None => modified_utf8(bytes@) is None,
            },
        decreases bytes@.len() - i,
    {
        let ghost here = bytes@.skip(i as int);
        let ghost seen = result@;
        let left: usize = bytes.len() - i;
        let b0 = bytes[i];
        assert(here[0] == b0);
        let value: u32;
        let width: usize;
        if b0 < 0x80 {
            value = b0 as u32;
            width = 1;
        } else if 0xC0 <= b0 && b0 < 0xE0 {
            if left < 2 {
                return Err(ClassFileError::InvalidModifiedUtf8);
            }
            let b1 = bytes[i + 1];
            assert(here[1] == b1);
            value = (b0 as u32 % 32) * 64 + (b1 as u32 % 64);
            width = 2;
        } else if 0xE0 <= b0 && b0 < 0xF0 {
            if left < 3 {
                return Err(ClassFileError::InvalidModifiedUtf8);
            }
            let unit: u32 = unit_of(b0, bytes[i + 1], bytes[i + 2]);
            assert(unit == unit3(here[0], here[1], here[2]));
            if 0xD800 <= unit && unit <= 0xDBFF {
                if left < 6 || !(0xE0 <= bytes[i + 3] && bytes[i + 3] < 0xF0) {
                    return Err(ClassFileError::InvalidModifiedUtf8);
                }
                let low: u32 = unit_of(bytes[i + 3], bytes[i + 4], bytes[i + 5]);
                assert(low == unit3(here[3], here[4], here[5]));
                if !(0xDC00 <= low && low <= 0xDFFF) {
                    return Err(ClassFileError::InvalidModifiedUtf8);
                }
                value = 0x10000 + (unit - 0xD800) * 1024 + (low - 0xDC00);
                width = 6;
            } else {
                value = unit;
                width = 3;
            }
        } else {
            return Err(ClassFileError::InvalidModifiedUtf8);
        }
        match char::from_u32(value) {
            Some(c) => {
                result.push(c);
                i += width;
                proof {
                    assert(here.skip(width as int) =~= bytes@.skip(i as int));
                    assert(first_modified(here) == Some((value as int, width as int)));
                    char_u32_cast(c, value);
                    assert(c == value as int as u32 as char);
                    match modified_utf8(bytes@.skip(i as int)) {
                        Some(rest) => {
                            assert(seen + (seq![c] + rest) =~= result@ + rest);
                        },
                        None => {},
                    }
                }
            },
            None => {
                return Err(ClassFileError::InvalidModifiedUtf8);
            },
        }
    }
    assert(result@ + Seq::<char>::empty() =~= result@);
    Ok(result)
}

// ---------------------------------------------------------------------------
// The classfile format
// ---------------------------------------------------------------------------

/// What reading at a position gives: the value and the position behind it.
pub type Parsed<T> = Result<(T, int), ClassFileError>;

/// A constant of the pool, as far as names need it.
pub enum Constant {
    Utf8(Seq<char>),
    ClassRef(u16),
    Other,
    Unusable,
}

pub open spec fn bytes_at(bytes: Seq<u8>, pos: int, len: int) -> Parsed<Seq<u8>> {
    if pos + len <= bytes.len() {
        Ok((bytes.subrange(pos, pos + len), pos + len))
    } else {
        Err(ClassFileError::UnexpectedEof)
    }
}

pub open spec fn u8_at(bytes: Seq<u8>, pos: int) -> Parsed<u8> {
    match bytes_at(bytes, pos, 1) {
        Ok((b, next)) => Ok((b[0], next)),
        Err(e) => Err(e),
    }
}

/// Two bytes, the most significant first.
pub open spec fn u16_at(bytes: Seq<u8>, pos: int) -> Parsed<u16> {
    match bytes_at(bytes, pos, 2) {
        Ok((b, next)) => Ok(((b[0] * 256 + b[1]) as u16, next)),
        Err(e) => Err(e),
    }
}

/// Four bytes, the most significant first.
pub open spec fn u32_at(bytes: Seq<u8>, pos: int) -> Parsed<u32> {
    match bytes_at(bytes, pos, 4) {
        Ok((b, next)) => Ok(
            ((b[0] * 0x1000000 + b[1] * 0x10000 + b[2] * 0x100 + b[3]) as u32, next),
        ),
        Err(e) => Err(e),
    }
}

/// The number of bytes behind the tag of a constant that is skipped.
pub open spec fn skipped_constant_len(tag: u8) -> Option<int> {
    if tag == 3 || tag == 4 {
        // Integer, Float
        Some(4)
    } else if tag == 5 || tag == 6 {
        // Long, Double
        Some(8)
    } else if tag == 8 || tag == 16 || tag == 19 || tag == 20 {
        // String, MethodType, Module, Package
        Some(2)
    } else if (9 <= tag <= 12) || tag == 17 || tag == 18 {
        // Fieldref, Methodref, InterfaceMethodref, NameAndType, Dynamic, InvokeDynamic
        Some(4)
    } else if tag == 15 {
        // MethodHandle
        Some(3)
    } else {
        None
    }
}

/// The constant at a position, and whether it takes a second slot of the pool,
/// as a Long and a Double do (JVMS 4.4.5).
pub open spec fn constant_at(bytes: Seq<u8>, pos: int) -> Parsed<(Constant, bool)> {
    match u8_at(bytes, pos) {
        Err(e) => Err(e),
        Ok((tag, pos)) => if tag == 1 {
            match u16_at(bytes, pos) {
                Err(e) => Err(e),
                Ok((len, pos)) => match bytes_at(bytes, pos, len as int) {
                    Err(e) => Err(e),
                    Ok((text, pos)) => match modified_utf8(text) {
                        None => Err(ClassFileError::InvalidModifiedUtf8),
                        Some(chars) => Ok(((Constant::Utf8(chars), false), pos)),
                    },
                },
            }
        } else if tag == 7 {
            match u16_at(bytes, pos) {
                Err(e) => Err(e),
                Ok((index, pos)) => Ok(((Constant::ClassRef(index), false), pos)),
            }
        } else {
            match skipped_constant_len(tag) {
                None => Err(ClassFileError::InvalidConstantPoolTag(tag)),
                Some(len) => match bytes_at(bytes, pos, len) {
                    Err(e) => Err(e),
                    Ok((_, pos)) => Ok(((Constant::Other, tag == 5 || tag == 6), pos)),
                },
            }
        },
    }
}

/// The slots with one more constant; the second slot of a wide one is unusable.
pub open spec fn with_constant(slots: Seq<Constant>, constant: Constant, wide: bool) -> Seq<
    Constant,
> {
    if wide {
        slots.push(constant).push(Constant::Unusable)
    } else {
        slots.push(constant)
    }
}

/// The slots read so far, followed by constants up to `count` slots in all.
pub open spec fn constants_from(
    bytes: Seq<u8>,
    pos: int,
    slots: Seq<Constant>,
    count: int,
) -> Parsed<Seq<Constant>>
    decreases if slots.len() < count { count - slots.len() } else { 0 },
{
    if slots.len() >= count {
        Ok((slots, pos))
    } else {
        match constant_at(bytes, pos) {
            Err(e) => Err(e),
            Ok(((constant, wide), next)) => constants_from(
                bytes,
                next,
                with_constant(slots, constant, wide),
                count,
            ),
        }
    }
}

/// The constant pool: its slot count, then constants from slot 1 on. Slot 0 is
/// never a valid constant.
pub open spec fn constant_pool_at(bytes: Seq<u8>, pos: int) -> Parsed<Seq<Constant>> {
    match u16_at(bytes, pos) {
        Err(e) => Err(e),
        Ok((count, pos)) => constants_from(bytes, pos, seq![Constant::Unusable], count as int),
    }
}

pub open spec fn utf8_constant(pool: Seq<Constant>, index: u16) -> Result<
    Seq<char>,
    ClassFileError,
> {
    if index < pool.len() && pool[index as int] is Utf8 {
        Ok(pool[index as int]->Utf8_0)
    } else {
        Err(ClassFileError::InvalidConstantPoolIndex)
    }
}

pub open spec fn class_constant(pool: Seq<Constant>, index: u16) -> Result<
    Seq<char>,
    ClassFileError,
> {
    if index < pool.len() && pool[index as int] is ClassRef {
        utf8_constant(pool, pool[index as int]->ClassRef_0)
    } else {
        Err(ClassFileError::InvalidConstantPoolIndex)
    }
}

/// The position behind `count` attributes: a name index and a length each,
/// then as many bytes as the length says.
pub open spec fn attributes_from(bytes: Seq<u8>, pos: int, count: nat) -> Result<
    int,
    ClassFileError,
>
    decreases count,
{
    if count == 0 {
        Ok(pos)
    } else {
        match u16_at(bytes, pos) {
            Err(e) => Err(e),
            Ok((_, pos)) => match u32_at(bytes, pos) {
                Err(e) => Err(e),
                Ok((len, pos)) => match bytes_at(bytes, pos, len as int) {
                    Err(e) => Err(e),
                    Ok((_, pos)) => attributes_from(bytes, pos, (count - 1) as nat),
                },
            },
        }
    }
}

/// The position behind an attribute table.
pub open spec fn attributes_at(bytes: Seq<u8>, pos: int) -> Result<int, ClassFileError> {
    match u16_at(bytes, pos) {
        Err(e) => Err(e),
        Ok((count, pos)) => attributes_from(bytes, pos, count as nat),
    }
}

/// A field or a method: flags, name, descriptor, attributes.
pub open spec fn member_at(bytes: Seq<u8>, pos: int, pool: Seq<Constant>) -> Parsed<MemberView> {
    match u16_at(bytes, pos) {
        Err(e) => Err(e),
        Ok((access_flags, pos)) => match u16_at(bytes, pos) {
            Err(e) => Err(e),
            Ok((name_index, pos)) => match utf8_constant(pool, name_index) {
                Err(e) => Err(e),
                Ok(name) => match u16_at(bytes, pos) {
                    Err(e) => Err(e),
                    Ok((descriptor_index, pos)) => match utf8_constant(pool, descriptor_index) {
                        Err(e) => Err(e),
                        Ok(descriptor) => match attributes_at(bytes, pos) {
                            Err(e) => Err(e),
                            Ok(pos) => Ok((MemberView { name, descriptor, access_flags }, pos)),
                        },
                    },
                },
            },
        },
    }
}

/// `count` members behind those read so far.
pub open spec fn members_from(
    bytes: Seq<u8>,
    pos: int,
    pool: Seq<Constant>,
    read: Seq<MemberView>,
    count: nat,
) -> Parsed<Seq<MemberView>>
    decreases count,
{
    if count == 0 {
        Ok((read, pos))
    } else {
        match member_at(bytes, pos, pool) {
            Err(e) => Err(e),
            Ok((member, pos)) => members_from(
                bytes,
                pos,
                pool,
                read.push(member),
                (count - 1) as nat,
            ),
        }
    }
}

/// A member table: a count, then so many members.
pub open spec fn members_at(bytes: Seq<u8>, pos: int, pool: Seq<Constant>) -> Parsed<
    Seq<MemberView>,
> {
    match u16_at(bytes, pos) {
        Err(e) => Err(e),
        Ok((count, pos)) => members_from(bytes, pos, pool, Seq::empty(), count as nat),
    }
}

/// `count` class names behind those read so far.
pub open spec fn class_names_from(
    bytes: Seq<u8>,
    pos: int,
    pool: Seq<Constant>,
    read: Seq<Seq<char>>,
    count: nat,
) -> Parsed<Seq<Seq<char>>>
    decreases count,
{
    if count == 0 {
        Ok((read, pos))
    } else {
        match u16_at(bytes, pos) {
            Err(e) => Err(e),
            Ok((index, pos)) => match class_constant(pool, index) {
                Err(e) => Err(e),
                Ok(name) => class_names_from(
                    bytes,
                    pos,
                    pool,
                    read.push(name),
                    (count - 1) as nat,
                ),
            },
        }
    }
}

/// The interface table: a count, then so many class names.
pub open spec fn interfaces_at(bytes: Seq<u8>, pos: int, pool: Seq<Constant>) -> Parsed<
    Seq<Seq<char>>,
> {
    match u16_at(bytes, pos) {
        Err(e) => Err(e),
        Ok((count, pos)) => class_names_from(bytes, pos, pool, Seq::empty(), count as nat),
    }
}

/// The superclass: index 0 says that there is none.
pub open spec fn super_class_at(bytes: Seq<u8>, pos: int, pool: Seq<Constant>) -> Parsed<
    Option<Seq<char>>,
> {
    match u16_at(bytes, pos) {
        Err(e) => Err(e),
        Ok((index, pos)) => if index == 0 {
            Ok((None, pos))
        } else {
            match class_constant(pool, index) {
                Err(e) => Err(e),
                Ok(name) => Ok((Some(name), pos)),
            }
        },
    }
}

/// Whether a method is one that Java code can name: all but the static
/// initializer.
pub open spec fn is_declared_method(m: MemberView) -> bool {
    m.name != "<clinit>"@
}

/// What stands behind the constant pool.
pub open spec fn class_body_at(bytes: Seq<u8>, pos: int, pool: Seq<Constant>) -> Parsed<
    ClassFileView,
> {
    match u16_at(bytes, pos) {
        Err(e) => Err(e),
        Ok((access_flags, pos)) => match u16_at(bytes, pos) {
            Err(e) => Err(e),
            Ok((this_index, pos)) => match class_constant(pool, this_index) {
                Err(e) => Err(e),
                Ok(this_class) => match super_class_at(bytes, pos, pool) {
                    Err(e) => Err(e),
                    Ok((super_class, pos)) => match interfaces_at(bytes, pos, pool) {
                        Err(e) => Err(e),
                        Ok((interfaces, pos)) => match members_at(bytes, pos, pool) {
                            Err(e) => Err(e),
                            Ok((fields, pos)) => match members_at(bytes, pos, pool) {
                                Err(e) => Err(e),
                                Ok((methods, pos)) => match attributes_at(bytes, pos) {
                                    Err(e) => Err(e),
                                    Ok(end) => Ok(
                                        (
                                            ClassFileView {
                                                access_flags,
                                                this_class,
                                                super_class,
                                                interfaces,
                                                fields,
                                                methods: methods.filter(
                                                    |m: MemberView| is_declared_method(m),
                                                ),
                                            },
                                            end,
                                        ),
                                    ),
                                },
                            },
                        },
                    },
                },
            },
        },
    }
}

/// The class that a classfile's bytes declare with the position behind its last
/// attribute, or the first error met when the bytes are read from the start.
#[verifier::opaque]
pub open spec fn class_file_at_start(bytes: Seq<u8>) -> Parsed<ClassFileView> {
    match u32_at(bytes, 0) {
        Err(e) => Err(e),
        Ok((magic, pos)) => if magic != MAGIC {
            Err(ClassFileError::InvalidMagic)
        } else {
            // minor_version, major_version
            match bytes_at(bytes, pos, 4) {
                Err(e) => Err(e),
                Ok((_, pos)) => match constant_pool_at(bytes, pos) {
                    Err(e) => Err(e),
                    Ok((pool, pos)) => class_body_at(bytes, pos, pool),
                },
            }
        },
    }
}

/// The class that a classfile's bytes declare, or the error that reading them
/// ends in. Bytes behind the last attribute are ignored.
pub open spec fn class_file(bytes: Seq<u8>) -> Result<ClassFileView, ClassFileError> {
    match class_file_at_start(bytes) {
        Ok((class, _)) => Ok(class),
        Err(e) => Err(e),
    }
}

// ---------------------------------------------------------------------------
// Reading
// ---------------------------------------------------------------------------

/// Whether a read from `pos` returned what the format says, and left the
/// reader behind it.
pub open spec fn read_as<T>(result: Result<T, ClassFileError>, end: int, parsed: Parsed<T>) -> bool {
    match result {
        Ok(value) => parsed == Ok::<(T, int), ClassFileError>((value, end)),
        Err(e) => parsed == Err::<(T, int), ClassFileError>(e),
    }
}

struct Reader<'a> {
    bytes: &'a [u8],
    pos: usize,
}

impl<'a> Reader<'a> {
    spec fn wf(self) -> bool {
        self.pos <= self.bytes@.len()
    }

    fn new(bytes: &'a [u8]) -> (r: Self)
        ensures
            r.wf(),
            r.bytes == bytes,
            r.pos == 0,
    {
        Self { bytes, pos: 0 }
    }

    fn read_bytes(&mut self, len: usize) -> (r: Result<&'a [u8], ClassFileError>)
        requires
            old(self).wf(),
        ensures
            final(self).wf(),
            final(self).bytes == old(self).bytes,
            match r {
                Ok(slice) => bytes_at(old(self).bytes@, old(self).pos as int, len as int) == Ok::<
                    (Seq<u8>, int),
                    ClassFileError,
                >((slice@, final(self).pos as int)),
                Err(e) => bytes_at(old(self).bytes@, old(self).pos as int, len as int) == Err::<
                    (Seq<u8>, int),
                    ClassFileError,
                >(e),
            },
    {
        if len > self.bytes.len() - self.pos {
            return Err(ClassFileError::UnexpectedEof);
        }
        let end: usize = self.pos + len;
        let slice = vstd::slice::slice_subrange(self.bytes, self.pos, end);
        self.pos = end;
        Ok(slice)
    }

    fn read_u8(&mut self) -> (r: Result<u8, ClassFileError>)
        requires
            old(self).wf(),
        ensures
            final(self).wf(),
            final(self).bytes == old(self).bytes,
            read_as(r, final(self).pos as int, u8_at(old(self).bytes@, old(self).pos as int)),
    {
        let bytes = self.read_bytes(1)?;
        Ok(bytes[0])
    }

    fn read_u16(&mut self) -> (r: Result<u16, ClassFileError>)
        requires
            old(self).wf(),
        ensures
            final(self).wf(),
            final(self).bytes == old(self).bytes,
            read_as(r, final(self).pos as int, u16_at(old(self).bytes@, old(self).pos as int)),
    {
        let bytes = self.read_bytes(2)?;
        Ok(bytes[0] as u16 * 256 + bytes[1] as u16)
    }

    fn read_u32(&mut self) -> (r: Result<u32, ClassFileError>)
        requires
            old(self).wf(),
        ensures
            final(self).wf(),
            final(self).bytes == old(self).bytes,
            read_as(r, final(self).pos as int, u32_at(old(self).bytes@, old(self).pos as int)),
    {
        let bytes = self.read_bytes(4)?;
        Ok(
            bytes[0] as u32 * 0x1000000 + bytes[1] as u32 * 0x10000 + bytes[2] as u32 * 0x100
                + bytes[3] as u32,
        )
    }

    fn skip(&mut self, len: usize) -> (r: Result<(), ClassFileError>)
        requires
            old(self).wf(),
        ensures
            final(self).wf(),
            final(self).bytes == old(self).bytes,
            match (r, bytes_at(old(self).bytes@, old(self).pos as int, len as int)) {
                (Ok(_), Ok((_, next))) => next == final(self).pos,
                (Err(e), Err(f)) => e == f,
                _ => false,
            },
    {
        self.read_bytes(len)?;
        Ok(())
    }
}

enum CpEntry {
    Utf8(String),
    ClassRef(u16),
    Other,
    Unusable,
}

impl CpEntry {
    spec fn constant(self) -> Constant {
        match self {
            CpEntry::Utf8(s) => Constant::Utf8(s@),
            CpEntry::ClassRef(index) => Constant::ClassRef(index),
            CpEntry::Other => Constant::Other,
            CpEntry::Unusable => Constant::Unusable,
        }
    }
}

spec fn constants(pool: Seq<CpEntry>) -> Seq<Constant> {
    pool.map_values(|e: CpEntry| e.constant())
}

fn skipped_len(tag: u8) -> (r: Option<usize>)
    ensures
        match r {
            Some(len) => skipped_constant_len(tag) == Some(len as int),
            None => skipped_constant_len(tag) is None,
        },
{
    match tag {
        3 | 4 => Some(4),  // Integer, Float
        5 | 6 => Some(8),  // Long, Double: occupy two pool slots
        8 | 16 | 19 | 20 => Some(2),  // String, MethodType, Module, Package
        9 | 10 | 11 | 12 | 17 | 18 => Some(4),  // references, NameAndType, Dynamic, InvokeDynamic
        15 => Some(3),  // MethodHandle
        _ => None,
    }
}

fn read_constant(reader: &mut Reader) -> (r: Result<(CpEntry, bool), ClassFileError>)
    requires
        old(reader).wf(),
    ensures
        final(reader).wf(),
        final(reader).bytes == old(reader).bytes,
        match (r, constant_at(old(reader).bytes@, old(reader).pos as int)) {
            (Ok((entry, wide)), Ok(((constant, two), next))) => entry.constant() == constant && wide
                == two && next == final(reader).pos,
            (Err(e), Err(f)) => e == f,
            _ => false,
        },
{
    let tag = reader.read_u8()?;
    if tag == 1 {
        let length = reader.read_u16()?;
        let bytes = reader.read_bytes(length as usize)?;
        let text = decode_modified_utf8(bytes)?;
        Ok((CpEntry::Utf8(text), false))
    } else if tag == 7 {
        let index = reader.read_u16()?;
        Ok((CpEntry::ClassRef(index), false))
    } else {
        match skipped_len(tag) {
            Some(len) => {
                reader.skip(len)?;
                Ok((CpEntry::Other, tag == 5 || tag == 6))
            },
            None => Err(ClassFileError::InvalidConstantPoolTag(tag)),
        }
    }
}

fn read_constant_pool(reader: &mut Reader) -> (r: Result<Vec<CpEntry>, ClassFileError>)
    requires
        old(reader).wf(),
    ensures
        final(reader).wf(),
        final(reader).bytes == old(reader).bytes,
        match (r, constant_pool_at(old(reader).bytes@, old(reader).pos as int)) {
            (Ok(pool), Ok((slots, next))) => constants(pool@) == slots && next == final(reader).pos,
            (Err(e), Err(f)) => e == f,
            _ => false,
        },
{
    let ghost bytes = reader.bytes@;
    let ghost start = reader.pos as int;
    let count = reader.read_u16()?;
    let ghost first = reader.pos as int;
    let mut pool: Vec<CpEntry> = Vec::new();
    pool.push(CpEntry::Unusable);
    assert(constants(pool@) =~= seq![Constant::Unusable]);
    while pool.len() < count as usize
        invariant
            reader.wf(),
            reader.bytes@ == bytes,
            reader.bytes == old(reader).bytes,
            constant_pool_at(bytes, start) == constants_from(
                bytes,
                reader.pos as int,
                constants(pool@),
                count as int,
            ),
            bytes == old(reader).bytes@,
            start == old(reader).pos,
        decreases count as int + 1 - pool.len(),
    {
        let ghost before = constants(pool@);
        let (entry, wide) = read_constant(reader)?;
        let ghost constant = entry.constant();
        pool.push(entry);
        if wide {
            pool.push(CpEntry::Unusable);
        }
        assert(constants(pool@) =~= with_constant(before, constant, wide));
    }
    Ok(pool)
}

fn utf8_at(pool: &[CpEntry], index: u16) -> (r: Result<&str, ClassFileError>)
    ensures
        match r {
            Ok(s) => utf8_constant(constants(pool@), index) == Ok::<Seq<char>, ClassFileError>(s@),
            Err(e) => utf8_constant(constants(pool@), index) == Err::<Seq<char>, ClassFileError>(e),
        },
{
    if (index as usize) < pool.len() {
        match &pool[index as usize] {
            CpEntry::Utf8(value) => {
                return Ok(value.as_str());
            },
            _ => {},
        }
    }
    Err(ClassFileError::InvalidConstantPoolIndex)
}

fn class_name_at(pool: &[CpEntry], index: u16) -> (r: Result<&str, ClassFileError>)
    ensures
        match r {
            Ok(s) => class_constant(constants(pool@), index) == Ok::<Seq<char>, ClassFileError>(s@),
            Err(e) => class_constant(constants(pool@), index) == Err::<Seq<char>, ClassFileError>(
                e,
            ),
        },
{
    if (index as usize) < pool.len() {
        match &pool[index as usize] {
            CpEntry::ClassRef(name_index) => {
                return utf8_at(pool, *name_index);
            },
            _ => {},
        }
    }
    Err(ClassFileError::InvalidConstantPoolIndex)
}

fn skip_attributes(reader: &mut Reader) -> (r: Result<(), ClassFileError>)
    requires
        old(reader).wf(),
    ensures
        final(reader).wf(),
        final(reader).bytes == old(reader).bytes,
        match r {
            Ok(_) => attributes_at(old(reader).bytes@, old(reader).pos as int) == Ok::<
                int,
                ClassFileError,
            >(final(reader).pos as int),
            Err(e) => attributes_at(old(reader).bytes@, old(reader).pos as int) == Err::<
                int,
                ClassFileError,
            >(e),
        },
{
    let ghost bytes = reader.bytes@;
    let ghost start = reader.pos as int;
    let count = reader.read_u16()?;
    let mut left: u16 = count;
    while left > 0
        invariant
            reader.wf(),
            reader.bytes@ == bytes,
            reader.bytes == old(reader).bytes,
            attributes_at(bytes, start) == attributes_from(bytes, reader.pos as int, left as nat),
            bytes == old(reader).bytes@,
            start == old(reader).pos,
        decreases left,
    {
        reader.read_u16()?;
        let length = reader.read_u32()?;
        reader.skip(length as usize)?;
        left -= 1;
    }
    Ok(())
}

fn read_member(reader: &mut Reader, pool: &[CpEntry]) -> (r: Result<Member, ClassFileError>)
    requires
        old(reader).wf(),
    ensures
        final(reader).wf(),
        final(reader).bytes == old(reader).bytes,
        match (r, member_at(old(reader).bytes@, old(reader).pos as int, constants(pool@))) {
            (Ok(m), Ok((member, next))) => m@ == member && next == final(reader).pos,
            (Err(e), Err(f)) => e == f,
            _ => false,
        },
{
    let access_flags = reader.read_u16()?;
    let name = utf8_at(pool, reader.read_u16()?)?.to_owned();
    let descriptor = utf8_at(pool, reader.read_u16()?)?.to_owned();
    skip_attributes(reader)?;
    Ok(Member { name, descriptor, access_flags })
}

fn read_members(reader: &mut Reader, pool: &[CpEntry]) -> (r: Result<Vec<Member>, ClassFileError>)
    requires
        old(reader).wf(),
    ensures
        final(reader).wf(),
        final(reader).bytes == old(reader).bytes,
        match (r, members_at(old(reader).bytes@, old(reader).pos as int, constants(pool@))) {
            (Ok(list), Ok((views, next))) => members(list@) == views && next == final(reader).pos,
            (Err(e), Err(f)) => e == f,
            _ => false,
        },
{
    let ghost bytes = reader.bytes@;
    let ghost start = reader.pos as int;
    let count = reader.read_u16()?;
    let mut left: u16 = count;
    let mut list: Vec<Member> = Vec::new();
    assert(members(list@) =~= Seq::empty());
    while left > 0
        invariant
            reader.wf(),
            reader.bytes@ == bytes,
            reader.bytes == old(reader).bytes,
            members_at(bytes, start, constants(pool@)) == members_from(
                bytes,
                reader.pos as int,
                constants(pool@),
                members(list@),
                left as nat,
            ),
            bytes == old(reader).bytes@,
            start == old(reader).pos,
        decreases left,
    {
        let ghost before = list@;
        let member = read_member(reader, pool)?;
        list.push(member);
        assert(members(list@) =~= members(before).push(member@));
        left -= 1;
    }
    Ok(list)
}

fn read_interfaces(reader: &mut Reader, pool: &[CpEntry]) -> (r: Result<
    Vec<String>,
    ClassFileError,
>)
    requires
        old(reader).wf(),
    ensures
        final(reader).wf(),
        final(reader).bytes == old(reader).bytes,
        match (r, interfaces_at(old(reader).bytes@, old(reader).pos as int, constants(pool@))) {
            (Ok(list), Ok((names, next))) => texts(list@) == names && next == final(reader).pos,
            (Err(e), Err(f)) => e == f,
            _ => false,
        },
{
    let ghost bytes = reader.bytes@;
    let ghost start = reader.pos as int;
    let count = reader.read_u16()?;
    let mut left: u16 = count;
    let mut list: Vec<String> = Vec::new();
    assert(texts(list@) =~= Seq::empty());
    while left > 0
        invariant
            reader.wf(),
            reader.bytes@ == bytes,
            reader.bytes == old(reader).bytes,
            interfaces_at(bytes, start, constants(pool@)) == class_names_from(
                bytes,
                reader.pos as int,
                constants(pool@),
                texts(list@),
                left as nat,
            ),
            bytes == old(reader).bytes@,
            start == old(reader).pos,
        decreases left,
    {
        broadcast use lemma_texts_push;

        let index = reader.read_u16()?;
        let name = class_name_at(pool, index)?.to_owned();
        list.push(name);
        left -= 1;
    }
    Ok(list)
}

/// The methods that Java code can name, in their order.
fn declared_methods(all: Vec<Member>) -> (r: Vec<Member>)
    ensures
        members(r@) == members(all@).filter(|m: MemberView| is_declared_method(m)),
{
    let ghost pred = |m: MemberView| is_declared_method(m);
    let mut methods: Vec<Member> = Vec::new();
    assert(members(methods@) =~= Seq::empty());
    assert(members(all@).take(0) =~= Seq::empty());
    assert(Seq::<MemberView>::empty().filter(pred) =~= Seq::empty()) by {
        reveal(Seq::filter);
    }
    let mut i: usize = 0;
    while i < all.len()
        invariant
            i <= all.len(),
            pred == (|m: MemberView| is_declared_method(m)),
            members(methods@) == members(all@).take(i as int).filter(pred),
        decreases all.len() - i,
    {
        let member = Member {
            name: all[i].name.clone(),
            descriptor: all[i].descriptor.clone(),
            access_flags: all[i].access_flags,
        };
        let ghost before = methods@;
        let ghost seen = members(all@).take(i as int);
        proof {
            assert(member@ == all@[i as int]@);
            assert(members(all@).take(i + 1) =~= seen.push(member@));
            seen.lemma_filter_push(member@, pred);
        }
        if !same_text(member.name.as_str(), "<clinit>") {
            methods.push(member);
            assert(members(methods@) =~= members(before).push(member@));
        }
        i += 1;
    }
    assert(members(all@).take(i as int) =~= members(all@));
    methods
}

/// Reads a classfile.
pub fn parse(bytes: &[u8]) -> (r: Result<ClassFile, ClassFileError>)
    ensures
        match r {
            Ok(class) => class_file(bytes@) == Ok::<ClassFileView, ClassFileError>(class@),
            Err(e) => class_file(bytes@) == Err::<ClassFileView, ClassFileError>(e),
        },
{
    proof {
        reveal(class_file_at_start);
    }
    let mut reader = Reader::new(bytes);
    if reader.read_u32()? != MAGIC {
        return Err(ClassFileError::InvalidMagic);
    }
    reader.skip(4)?;  // minor_version, major_version
    let pool = read_constant_pool(&mut reader)?;
    let access_flags = reader.read_u16()?;
    let this_class = class_name_at(&pool, reader.read_u16()?)?.to_owned();
    let super_class_index = reader.read_u16()?;
    let super_class = if super_class_index == 0 {
        None
    } else {
        Some(class_name_at(&pool, super_class_index)?.to_owned())
    };
    let interfaces = read_interfaces(&mut reader, &pool)?;
    let fields = read_members(&mut reader, &pool)?;
    let methods = declared_methods(read_members(&mut reader, &pool)?);
    skip_attributes(&mut reader)?;
    Ok(ClassFile { access_flags, this_class, super_class, interfaces, fields, methods })
}

// ---------------------------------------------------------------------------
// Laws
// ---------------------------------------------------------------------------

/// The bytes that stand for one character in modified UTF-8.
pub open spec fn modified_char(c: char) -> Seq<u8> {
    let v = c as int;
    if 0 < v < 0x80 {
        seq![v as u8]
    } else if v < 0x800 {
        seq![(0xC0 + v / 64) as u8, (0x80 + v % 64) as u8]
    } else if v < 0x10000 {
        modified_unit(v)
    } else {
        modified_unit(0xD800 + (v - 0x10000) / 1024) + modified_unit(0xDC00 + (v - 0x10000) % 1024)
    }
}

/// The three bytes that hold one UTF-16 code unit.
pub open spec fn modified_unit(unit: int) -> Seq<u8> {
    seq![
        (0xE0 + unit / 4096) as u8,
        (0x80 + unit / 64 % 64) as u8,
        (0x80 + unit % 64) as u8,
    ]
}

/// The bytes that stand for a text in modified UTF-8.
pub open spec fn encode_modified_utf8(chars: Seq<char>) -> Seq<u8>
    decreases chars.len(),
{
    if chars.len() == 0 {
        Seq::empty()
    } else {
        modified_char(chars[0]) + encode_modified_utf8(chars.skip(1))
    }
}

proof fn lemma_modified_unit(unit: int)
    requires
        0x800 <= unit < 0x10000,
    ensures
        modified_unit(unit).len() == 3,
        0xE0 <= modified_unit(unit)[0] < 0xF0,
        unit3(modified_unit(unit)[0], modified_unit(unit)[1], modified_unit(unit)[2]) == unit,
{
    let b = modified_unit(unit);
    assert(b[0] == 0xE0 + unit / 4096);
    assert(b[1] == 0x80 + unit / 64 % 64);
    assert(b[2] == 0x80 + unit % 64);
}

proof fn lemma_first_modified(c: char, rest: Seq<u8>)
    ensures
        first_modified(modified_char(c) + rest) == Some((c as int, modified_char(c).len() as int)),
        modified_char(c).len() > 0,
{
    let v = c as int;
    let all = modified_char(c) + rest;
    if 0 < v < 0x80 {
        assert(all[0] == v);
    } else if v < 0x800 {
        assert(all[0] == 0xC0 + v / 64);
        assert(all[1] == 0x80 + v % 64);
    } else if v < 0x10000 {
        lemma_modified_unit(v);
        assert(all[0] == modified_char(c)[0]);
        assert(all[1] == modified_char(c)[1]);
        assert(all[2] == modified_char(c)[2]);
    } else {
        let high = 0xD800 + (v - 0x10000) / 1024;
        let low = 0xDC00 + (v - 0x10000) % 1024;
        lemma_modified_unit(high);
        lemma_modified_unit(low);
        assert(all[0] == modified_unit(high)[0]);
        assert(all[1] == modified_unit(high)[1]);
        assert(all[2] == modified_unit(high)[2]);
        assert(all[3] == modified_unit(low)[0]);
        assert(all[4] == modified_unit(low)[1]);
        assert(all[5] == modified_unit(low)[2]);
    }
}

/// Decoding gives back every text that was encoded in modified UTF-8: `NUL` as
/// two bytes, and a supplementary character as a surrogate pair, included.
pub proof fn law_modified_utf8_round_trip(chars: Seq<char>)
    ensures
        modified_utf8(encode_modified_utf8(chars)) == Some(chars),
    decreases chars.len(),
{
    if chars.len() > 0 {
        let c = chars[0];
        let rest = encode_modified_utf8(chars.skip(1));
        law_modified_utf8_round_trip(chars.skip(1));
        lemma_first_modified(c, rest);
        let all = modified_char(c) + rest;
        assert(all.skip(modified_char(c).len() as int) =~= rest);
        char_u32_cast(c, c as u32);
        assert(seq![c] + chars.skip(1) =~= chars);
    }
}

/// Text in standard UTF-8 whose characters all lie in the Basic Multilingual
/// Plane reads the same as modified UTF-8.
pub proof fn law_bmp_utf8_is_modified_utf8(chars: Seq<char>)
    requires
        forall|i: int| 0 <= i < chars.len() ==> (#[trigger] chars[i] as u32) < 0x10000,
    ensures
        modified_utf8(encode_utf8(chars)) == Some(chars),
    decreases chars.len(),
{
    if chars.len() > 0 {
        let c = chars[0];
        let u = c as u32;
        char_is_scalar(c);
        char_u32_cast(c, u);
        let rest = encode_utf8(chars.drop_first());
        law_bmp_utf8_is_modified_utf8(chars.drop_first());
        let first = encode_scalar(u);
        let all = first + rest;
        assert(all == encode_utf8(chars));
        assert(u < 0x80 ==> (u & 0x7f) as u8 == u) by (bit_vector);
        assert(0x80 <= u < 0x800 ==> {
            let a = 0xC0u8 | ((u >> 6) & 0x1F) as u8;
            let b = 0x80u8 | (u & 0x3F) as u8;
            0xC0 <= a && a < 0xE0 && (a % 32) as u32 * 64 + (b % 64) as u32 == u
        }) by (bit_vector);
        assert(0x800 <= u < 0x10000 ==> {
            let a = 0xE0u8 | ((u >> 12) & 0x0F) as u8;
            let b = 0x80u8 | ((u >> 6) & 0x3F) as u8;
            let d = 0x80u8 | (u & 0x3F) as u8;
            0xE0 <= a && a < 0xF0 && (a % 16) as u32 * 4096 + (b % 64) as u32 * 64 + (d
                % 64) as u32 == u
        }) by (bit_vector);
        assert(forall|i: int| 0 <= i < first.len() ==> all[i] == first[i]);
        assert(first_modified(all) == Some((u as int, first.len() as int)));
        assert(all.skip(first.len() as int) =~= rest);
        assert(seq![c] + chars.drop_first() =~= chars);
    }
}

/// The static initializer never shows among the methods of a class.
pub proof fn law_static_initializer_is_excluded(bytes: Seq<u8>)
    requires
        class_file(bytes) is Ok,
    ensures
        forall|i: int|
            0 <= i < class_file(bytes)->Ok_0.methods.len()
                ==> (#[trigger] class_file(bytes)->Ok_0.methods[i]).name != "<clinit>"@,
{
    broadcast use vstd::seq_lib::group_filter_ensures;

    reveal(class_file_at_start);
    let pred = |m: MemberView| is_declared_method(m);
    let methods = class_file(bytes)->Ok_0.methods;
    assert forall|i: int| 0 <= i < methods.len() implies (#[trigger] methods[i]).name
        != "<clinit>"@ by {
        assert(exists|all: Seq<MemberView>| methods == #[trigger] all.filter(pred));
        let all = choose|all: Seq<MemberView>| methods == #[trigger] all.filter(pred);
        assert(pred(all.filter(pred)[i]));
    }
}

proof fn lemma_bytes_extend(bytes: Seq<u8>, extra: Seq<u8>, pos: int, len: int)
    requires
        0 <= pos,
        0 <= len,
        bytes_at(bytes, pos, len) is Ok,
    ensures
        bytes_at(bytes + extra, pos, len) == bytes_at(bytes, pos, len),
{
    assert((bytes + extra).subrange(pos, pos + len) =~= bytes.subrange(pos, pos + len));
}

proof fn lemma_u16_extend(bytes: Seq<u8>, extra: Seq<u8>, pos: int)
    requires
        0 <= pos,
        u16_at(bytes, pos) is Ok,
    ensures
        u16_at(bytes + extra, pos) == u16_at(bytes, pos),
{
    lemma_bytes_extend(bytes, extra, pos, 2);
}

proof fn lemma_constants_extend(
    bytes: Seq<u8>,
    extra: Seq<u8>,
    pos: int,
    slots: Seq<Constant>,
    count: int,
)
    requires
        0 <= pos,
        constants_from(bytes, pos, slots, count) is Ok,
    ensures
        constants_from(bytes + extra, pos, slots, count) == constants_from(
            bytes,
            pos,
            slots,
            count,
        ),
        constants_from(bytes, pos, slots, count)->Ok_0.1 >= pos,
    decreases
            if slots.len() < count {
                count - slots.len()
            } else {
                0
            },
{
    if slots.len() < count {
        lemma_bytes_extend(bytes, extra, pos, 1);
        let (tag, next) = u8_at(bytes, pos)->Ok_0;
        if tag == 1 {
            lemma_u16_extend(bytes, extra, next);
            let (len, after) = u16_at(bytes, next)->Ok_0;
            lemma_bytes_extend(bytes, extra, after, len as int);
        } else if tag == 7 {
            lemma_u16_extend(bytes, extra, next);
        } else {
            lemma_bytes_extend(bytes, extra, next, skipped_constant_len(tag)->0);
        }
        let ((constant, wide), next) = constant_at(bytes, pos)->Ok_0;
        lemma_constants_extend(bytes, extra, next, with_constant(slots, constant, wide), count);
    }
}

proof fn lemma_attributes_extend(bytes: Seq<u8>, extra: Seq<u8>, pos: int, count: nat)
    requires
        0 <= pos,
        attributes_from(bytes, pos, count) is Ok,
    ensures
        attributes_from(bytes + extra, pos, count) == attributes_from(bytes, pos, count),
        pos <= attributes_from(bytes, pos, count)->Ok_0,
        pos <= bytes.len() ==> attributes_from(bytes, pos, count)->Ok_0 <= bytes.len(),
    decreases count,
{
    if count > 0 {
        lemma_u16_extend(bytes, extra, pos);
        lemma_bytes_extend(bytes, extra, pos + 2, 4);
        let (len, next) = u32_at(bytes, pos + 2)->Ok_0;
        lemma_bytes_extend(bytes, extra, next, len as int);
        lemma_attributes_extend(bytes, extra, next + len, (count - 1) as nat);
    }
}

proof fn lemma_attribute_table_extend(bytes: Seq<u8>, extra: Seq<u8>, pos: int)
    requires
        0 <= pos,
        attributes_at(bytes, pos) is Ok,
    ensures
        attributes_at(bytes + extra, pos) == attributes_at(bytes, pos),
        pos <= attributes_at(bytes, pos)->Ok_0 <= bytes.len(),
{
    lemma_u16_extend(bytes, extra, pos);
    let (count, next) = u16_at(bytes, pos)->Ok_0;
    lemma_attributes_extend(bytes, extra, next, count as nat);
}

proof fn lemma_members_extend(
    bytes: Seq<u8>,
    extra: Seq<u8>,
    pos: int,
    pool: Seq<Constant>,
    read: Seq<MemberView>,
    count: nat,
)
    requires
        0 <= pos,
        members_from(bytes, pos, pool, read, count) is Ok,
    ensures
        members_from(bytes + extra, pos, pool, read, count) == members_from(
            bytes,
            pos,
            pool,
            read,
            count,
        ),
        members_from(bytes, pos, pool, read, count)->Ok_0.1 >= pos,
    decreases count,
{
    if count > 0 {
        lemma_u16_extend(bytes, extra, pos);
        lemma_u16_extend(bytes, extra, pos + 2);
        lemma_u16_extend(bytes, extra, pos + 4);
        lemma_attribute_table_extend(bytes, extra, pos + 6);
        let (member, next) = member_at(bytes, pos, pool)->Ok_0;
        lemma_members_extend(bytes, extra, next, pool, read.push(member), (count - 1) as nat);
    }
}

proof fn lemma_member_table_extend(
    bytes: Seq<u8>,
    extra: Seq<u8>,
    pos: int,
    pool: Seq<Constant>,
)
    requires
        0 <= pos,
        members_at(bytes, pos, pool) is Ok,
    ensures
        members_at(bytes + extra, pos, pool) == members_at(bytes, pos, pool),
        members_at(bytes, pos, pool)->Ok_0.1 >= pos,
{
    lemma_u16_extend(bytes, extra, pos);
    let (count, next) = u16_at(bytes, pos)->Ok_0;
    lemma_members_extend(bytes, extra, next, pool, Seq::empty(), count as nat);
}

proof fn lemma_class_names_extend(
    bytes: Seq<u8>,
    extra: Seq<u8>,
    pos: int,
    pool: Seq<Constant>,
    read: Seq<Seq<char>>,
    count: nat,
)
    requires
        0 <= pos,
        class_names_from(bytes, pos, pool, read, count) is Ok,
    ensures
        class_names_from(bytes + extra, pos, pool, read, count) == class_names_from(
            bytes,
            pos,
            pool,
            read,
            count,
        ),
        class_names_from(bytes, pos, pool, read, count)->Ok_0.1 >= pos,
    decreases count,
{
    if count > 0 {
        lemma_u16_extend(bytes, extra, pos);
        let (index, next) = u16_at(bytes, pos)->Ok_0;
        let name = class_constant(pool, index)->Ok_0;
        lemma_class_names_extend(bytes, extra, next, pool, read.push(name), (count - 1) as nat);
    }
}

proof fn lemma_class_body_extend(bytes: Seq<u8>, extra: Seq<u8>, pos: int, pool: Seq<Constant>)
    requires
        0 <= pos,
        class_body_at(bytes, pos, pool) is Ok,
    ensures
        class_body_at(bytes + extra, pos, pool) == class_body_at(bytes, pos, pool),
        class_body_at(bytes, pos, pool)->Ok_0.1 <= bytes.len(),
{
    lemma_u16_extend(bytes, extra, pos);
    lemma_u16_extend(bytes, extra, pos + 2);
    lemma_u16_extend(bytes, extra, pos + 4);
    lemma_u16_extend(bytes, extra, pos + 6);
    let (count, next) = u16_at(bytes, pos + 6)->Ok_0;
    lemma_class_names_extend(bytes, extra, next, pool, Seq::empty(), count as nat);
    let (_, p1) = interfaces_at(bytes, pos + 6, pool)->Ok_0;
    lemma_member_table_extend(bytes, extra, p1, pool);
    let (_, p2) = members_at(bytes, p1, pool)->Ok_0;
    lemma_member_table_extend(bytes, extra, p2, pool);
    let (_, p3) = members_at(bytes, p2, pool)->Ok_0;
    lemma_attribute_table_extend(bytes, extra, p3);
}

/// Bytes behind a complete classfile change nothing.
pub proof fn law_trailing_bytes_are_ignored(bytes: Seq<u8>, extra: Seq<u8>)
    requires
        class_file_at_start(bytes) is Ok,
    ensures
        class_file_at_start(bytes + extra) == class_file_at_start(bytes),
        class_file(bytes + extra) == class_file(bytes),
        class_file_at_start(bytes)->Ok_0.1 <= bytes.len(),
{
    reveal(class_file_at_start);
    lemma_bytes_extend(bytes, extra, 0, 4);
    lemma_bytes_extend(bytes, extra, 4, 4);
    lemma_u16_extend(bytes, extra, 8);
    let (count, next) = u16_at(bytes, 8)->Ok_0;
    let slots = seq![Constant::Unusable];
    lemma_constants_extend(bytes, extra, next, slots, count as int);
    let (pool, pos) = constants_from(bytes, next, slots, count as int)->Ok_0;
    lemma_class_body_extend(bytes, extra, pos, pool);
}

/// A classfile cut off anywhere before its end is an error.
pub proof fn law_truncated_input_is_an_error(bytes: Seq<u8>, len: int)
    requires
        class_file_at_start(bytes) is Ok,
        0 <= len < class_file_at_start(bytes)->Ok_0.1,
    ensures
        class_file(bytes.take(len)) is Err,
{
    law_trailing_bytes_are_ignored(bytes, Seq::empty());
    if class_file_at_start(bytes.take(len)) is Ok {
        law_trailing_bytes_are_ignored(bytes.take(len), bytes.skip(len));
        assert(bytes.take(len) + bytes.skip(len) =~= bytes);
    }
}

// ---------------------------------------------------------------------------
// Writing
// ---------------------------------------------------------------------------

/// A number in two bytes, the most significant first.
pub open spec fn two_bytes(n: u16) -> Seq<u8> {
    seq![(n / 256) as u8, (n % 256) as u8]
}

/// A number in four bytes, the most significant first.
pub open spec fn four_bytes(n: u32) -> Seq<u8> {
    seq![
        (n / 0x1000000) as u8,
        (n / 0x10000 % 256) as u8,
        (n / 0x100 % 256) as u8,
        (n % 256) as u8,
    ]
}

/// A constant as it is written (JVMS 4.4): a text, the class of a name, or one
/// of another tag with its bytes.
pub enum WrittenConstant {
    Text(Seq<char>),
    Class(u16),
    Tagged(u8, Seq<u8>),
}

impl WrittenConstant {
    /// Whether the constant can be written: a text is not too long, and behind
    /// any other tag stand as many bytes as the format says.
    pub open spec fn valid(self) -> bool {
        match self {
            WrittenConstant::Text(s) => encode_modified_utf8(s).len() <= u16::MAX,
            WrittenConstant::Class(_) => true,
            WrittenConstant::Tagged(tag, bytes) => {
                ||| (tag == 3 || tag == 4) && bytes.len() == 4
                ||| (tag == 5 || tag == 6) && bytes.len() == 8
                ||| tag == 8 && bytes.len() == 2
                ||| (tag == 9 || tag == 10 || tag == 11 || tag == 12) && bytes.len() == 4
                ||| tag == 15 && bytes.len() == 3
                ||| tag == 16 && bytes.len() == 2
                ||| (tag == 17 || tag == 18) && bytes.len() == 4
                ||| (tag == 19 || tag == 20) && bytes.len() == 2
            },
        }
    }

    pub open spec fn written(self) -> Seq<u8> {
        match self {
            WrittenConstant::Text(s) => seq![1u8] + two_bytes(
                encode_modified_utf8(s).len() as u16,
            ) + encode_modified_utf8(s),
            WrittenConstant::Class(index) => seq![7u8] + two_bytes(index),
            WrittenConstant::Tagged(tag, bytes) => seq![tag] + bytes,
        }
    }

    /// The slots of the pool that the constant takes: two for a Long or a
    /// Double.
    pub open spec fn slots(self) -> Seq<Constant> {
        match self {
            WrittenConstant::Text(s) => seq![Constant::Utf8(s)],
            WrittenConstant::Class(index) => seq![Constant::ClassRef(index)],
            WrittenConstant::Tagged(tag, _) => if tag == 5 || tag == 6 {
                seq![Constant::Other, Constant::Unusable]
            } else {
                seq![Constant::Other]
            },
        }
    }
}

pub open spec fn written_constants(list: Seq<WrittenConstant>) -> Seq<u8>
    decreases list.len(),
{
    if list.len() == 0 {
        Seq::empty()
    } else {
        list[0].written() + written_constants(list.skip(1))
    }
}

pub open spec fn slots_of(list: Seq<WrittenConstant>) -> Seq<Constant>
    decreases list.len(),
{
    if list.len() == 0 {
        Seq::empty()
    } else {
        list[0].slots() + slots_of(list.skip(1))
    }
}

/// Attributes as they are written: the index of a name, a length, and so many
/// bytes each.
pub open spec fn written_attributes(list: Seq<(u16, Seq<u8>)>) -> Seq<u8>
    decreases list.len(),
{
    if list.len() == 0 {
        Seq::empty()
    } else {
        two_bytes(list[0].0) + four_bytes(list[0].1.len() as u32) + list[0].1 + written_attributes(
            list.skip(1),
        )
    }
}

pub open spec fn valid_attributes(list: Seq<(u16, Seq<u8>)>) -> bool {
    list.len() <= u16::MAX && forall|k: int|
        0 <= k < list.len() ==> (#[trigger] list[k]).1.len() <= u32::MAX
}

/// A field or a method as it is written.
pub struct WrittenMember {
    pub access_flags: u16,
    pub name: u16,
    pub descriptor: u16,
    pub attributes: Seq<(u16, Seq<u8>)>,
}

pub open spec fn written_members(list: Seq<WrittenMember>) -> Seq<u8>
    decreases list.len(),
{
    if list.len() == 0 {
        Seq::empty()
    } else {
        let m = list[0];
        two_bytes(m.access_flags) + two_bytes(m.name) + two_bytes(m.descriptor) + two_bytes(
            m.attributes.len() as u16,
        ) + written_attributes(m.attributes) + written_members(list.skip(1))
    }
}

pub open spec fn written_indices(list: Seq<u16>) -> Seq<u8>
    decreases list.len(),
{
    if list.len() == 0 {
        Seq::empty()
    } else {
        two_bytes(list[0]) + written_indices(list.skip(1))
    }
}

/// Whether a pool holds a text at an index.
pub open spec fn holds_text(pool: Seq<Constant>, index: u16, text: Seq<char>) -> bool {
    0 < index < pool.len() && pool[index as int] == Constant::Utf8(text)
}

/// Whether a pool holds the class of a name at an index.
pub open spec fn holds_class(pool: Seq<Constant>, index: u16, name: Seq<char>) -> bool {
    0 < index < pool.len() && exists|at: u16|
        pool[index as int] == Constant::ClassRef(at) && #[trigger] holds_text(pool, at, name)
}

/// Whether members that were written say this.
pub open spec fn members_say(
    pool: Seq<Constant>,
    list: Seq<WrittenMember>,
    said: Seq<MemberView>,
) -> bool {
    &&& list.len() == said.len() <= u16::MAX
    &&& forall|k: int|
        0 <= k < list.len() ==> {
            let m = #[trigger] list[k];
            &&& said[k].access_flags == m.access_flags
            &&& holds_text(pool, m.name, said[k].name)
            &&& holds_text(pool, m.descriptor, said[k].descriptor)
            &&& valid_attributes(m.attributes)
        }
}

/// A class file as it is written (JVMS 4.1).
pub struct WrittenClass {
    pub version: Seq<u8>,
    pub constants: Seq<WrittenConstant>,
    pub access_flags: u16,
    pub this_class: u16,
    pub super_class: u16,
    pub interfaces: Seq<u16>,
    pub fields: Seq<WrittenMember>,
    pub methods: Seq<WrittenMember>,
    pub attributes: Seq<(u16, Seq<u8>)>,
}

impl WrittenClass {
    pub open spec fn pool(self) -> Seq<Constant> {
        seq![Constant::Unusable] + slots_of(self.constants)
    }

    pub open spec fn written_body(self) -> Seq<u8> {
        two_bytes(self.access_flags) + (two_bytes(self.this_class) + (two_bytes(self.super_class)
            + (two_bytes(self.interfaces.len() as u16) + (written_indices(self.interfaces) + (
        two_bytes(self.fields.len() as u16) + (written_members(self.fields) + (two_bytes(
            self.methods.len() as u16,
        ) + (written_members(self.methods) + (two_bytes(self.attributes.len() as u16)
            + written_attributes(self.attributes))))))))))
    }

    pub open spec fn written(self) -> Seq<u8> {
        seq![0xCAu8, 0xFEu8, 0xBAu8, 0xBEu8] + (self.version + (two_bytes(self.pool().len() as u16)
            + (written_constants(self.constants) + self.written_body())))
    }

    /// Whether the class says this: each name stands where its index points.
    /// The static initializer is left out.
    pub open spec fn says(self, class: ClassFileView, methods: Seq<MemberView>) -> bool {
        let pool = self.pool();
        &&& self.version.len() == 4
        &&& pool.len() <= u16::MAX
        &&& forall|k: int| 0 <= k < self.constants.len() ==> (#[trigger] self.constants[k]).valid()
        &&& class.access_flags == self.access_flags
        &&& holds_class(pool, self.this_class, class.this_class)
        &&& match class.super_class {
            Some(name) => self.super_class != 0 && holds_class(pool, self.super_class, name),
            None => self.super_class == 0,
        }
        &&& class.interfaces.len() == self.interfaces.len() <= u16::MAX
        &&& forall|k: int|
            0 <= k < self.interfaces.len() ==> holds_class(
                pool,
                #[trigger] self.interfaces[k],
                class.interfaces[k],
            )
        &&& members_say(pool, self.fields, class.fields)
        &&& members_say(pool, self.methods, methods)
        &&& class.methods == methods.filter(|m: MemberView| m.name != "<clinit>"@)
        &&& valid_attributes(self.attributes)
    }
}

/// Whether bytes stand at a position.
#[verifier::opaque]
spec fn stands(bytes: Seq<u8>, pos: int, part: Seq<u8>) -> bool {
    0 <= pos && pos + part.len() <= bytes.len() && bytes.subrange(pos, pos + part.len()) == part
}

proof fn lemma_stands(bytes: Seq<u8>, pos: int, a: Seq<u8>, b: Seq<u8>)
    requires
        stands(bytes, pos, a + b),
    ensures
        stands(bytes, pos, a),
        stands(bytes, pos + a.len(), b),
{
    reveal(stands);
    let whole = bytes.subrange(pos, pos + (a + b).len());
    assert(bytes.subrange(pos, pos + a.len()) =~= a) by {
        assert forall|k: int| 0 <= k < a.len() implies bytes[pos + k] == a[k] by {
            assert(whole[k] == (a + b)[k]);
        }
    }
    assert(bytes.subrange(pos + a.len(), pos + a.len() + b.len()) =~= b) by {
        assert forall|k: int| 0 <= k < b.len() implies bytes[pos + a.len() + k] == b[k] by {
            assert(whole[a.len() + k] == (a + b)[a.len() + k]);
        }
    }
}

proof fn lemma_bytes_stand(bytes: Seq<u8>, pos: int, part: Seq<u8>)
    requires
        stands(bytes, pos, part),
    ensures
        bytes_at(bytes, pos, part.len() as int) == Ok::<(Seq<u8>, int), ClassFileError>(
            (part, pos + part.len()),
        ),
{
    reveal(stands);
}

proof fn lemma_two_bytes(bytes: Seq<u8>, pos: int, n: u16)
    requires
        stands(bytes, pos, two_bytes(n)),
    ensures
        u16_at(bytes, pos) == Ok::<(u16, int), ClassFileError>((n, pos + 2)),
{
    let b = two_bytes(n);
    lemma_bytes_stand(bytes, pos, b);
    assert(b[0] == n / 256 && b[1] == n % 256);
}

proof fn lemma_four_bytes(bytes: Seq<u8>, pos: int, n: u32)
    requires
        stands(bytes, pos, four_bytes(n)),
    ensures
        u32_at(bytes, pos) == Ok::<(u32, int), ClassFileError>((n, pos + 4)),
{
    let b = four_bytes(n);
    lemma_bytes_stand(bytes, pos, b);
    assert(b[0] == n / 0x1000000 && b[1] == n / 0x10000 % 256 && b[2] == n / 0x100 % 256 && b[3] == n
        % 256);
}

proof fn lemma_written_constant(bytes: Seq<u8>, pos: int, c: WrittenConstant)
    requires
        c.valid(),
        stands(bytes, pos, c.written()),
    ensures
        ({
            let wide = c.slots().len() == 2;
            constant_at(bytes, pos) == Ok::<((Constant, bool), int), ClassFileError>(
                ((c.slots()[0], wide), pos + c.written().len()),
            )
        }),
{
    match c {
        WrittenConstant::Text(s) => {
            let text = encode_modified_utf8(s);
            let len = text.len() as u16;
            lemma_stands(bytes, pos, seq![1u8] + two_bytes(len), text);
            lemma_stands(bytes, pos, seq![1u8], two_bytes(len));
            lemma_bytes_stand(bytes, pos, seq![1u8]);
            lemma_two_bytes(bytes, pos + 1, len);
            lemma_bytes_stand(bytes, pos + 3, text);
            law_modified_utf8_round_trip(s);
        },
        WrittenConstant::Class(index) => {
            lemma_stands(bytes, pos, seq![7u8], two_bytes(index));
            lemma_bytes_stand(bytes, pos, seq![7u8]);
            lemma_two_bytes(bytes, pos + 1, index);
        },
        WrittenConstant::Tagged(tag, data) => {
            lemma_stands(bytes, pos, seq![tag], data);
            lemma_bytes_stand(bytes, pos, seq![tag]);
            lemma_bytes_stand(bytes, pos + 1, data);
        },
    }
}

proof fn lemma_written_constants(
    bytes: Seq<u8>,
    pos: int,
    slots: Seq<Constant>,
    list: Seq<WrittenConstant>,
)
    requires
        forall|k: int| 0 <= k < list.len() ==> (#[trigger] list[k]).valid(),
        stands(bytes, pos, written_constants(list)),
    ensures
        constants_from(bytes, pos, slots, (slots.len() + slots_of(list).len()) as int) == Ok::<
            (Seq<Constant>, int),
            ClassFileError,
        >((slots + slots_of(list), pos + written_constants(list).len())),
    decreases list.len(),
{
    if list.len() == 0 {
        assert(slots + slots_of(list) =~= slots);
    } else {
        let c = list[0];
        let rest = list.skip(1);
        lemma_stands(bytes, pos, c.written(), written_constants(rest));
        lemma_written_constant(bytes, pos, c);
        let next = slots + c.slots();
        assert(with_constant(slots, c.slots()[0], c.slots().len() == 2) =~= next);
        assert forall|k: int| 0 <= k < rest.len() implies (#[trigger] rest[k]).valid() by {
            assert(rest[k] == list[k + 1]);
        }
        lemma_written_constants(bytes, pos + c.written().len(), next, rest);
        assert(next + slots_of(rest) =~= slots + slots_of(list));
    }
}

proof fn lemma_written_attributes(bytes: Seq<u8>, pos: int, list: Seq<(u16, Seq<u8>)>)
    requires
        forall|k: int| 0 <= k < list.len() ==> (#[trigger] list[k]).1.len() <= u32::MAX,
        stands(bytes, pos, written_attributes(list)),
    ensures
        attributes_from(bytes, pos, list.len()) == Ok::<int, ClassFileError>(
            pos + written_attributes(list).len(),
        ),
    decreases list.len(),
{
    if list.len() > 0 {
        let (name, data) = list[0];
        let rest = list.skip(1);
        let len = data.len() as u32;
        lemma_stands(
            bytes,
            pos,
            two_bytes(name) + four_bytes(len) + data,
            written_attributes(rest),
        );
        lemma_stands(bytes, pos, two_bytes(name) + four_bytes(len), data);
        lemma_stands(bytes, pos, two_bytes(name), four_bytes(len));
        lemma_two_bytes(bytes, pos, name);
        lemma_four_bytes(bytes, pos + 2, len);
        lemma_bytes_stand(bytes, pos + 6, data);
        assert forall|k: int| 0 <= k < rest.len() implies (#[trigger] rest[k]).1.len()
            <= u32::MAX by {
            assert(rest[k] == list[k + 1]);
        }
        lemma_written_attributes(bytes, pos + 6 + data.len(), rest);
    }
}

proof fn lemma_written_members(
    bytes: Seq<u8>,
    pos: int,
    pool: Seq<Constant>,
    read: Seq<MemberView>,
    list: Seq<WrittenMember>,
    said: Seq<MemberView>,
)
    requires
        members_say(pool, list, said),
        stands(bytes, pos, written_members(list)),
    ensures
        members_from(bytes, pos, pool, read, list.len()) == Ok::<
            (Seq<MemberView>, int),
            ClassFileError,
        >((read + said, pos + written_members(list).len())),
    decreases list.len(),
{
    if list.len() == 0 {
        assert(read + said =~= read);
    } else {
        let m = list[0];
        let rest = list.skip(1);
        let count = m.attributes.len() as u16;
        let head = two_bytes(m.access_flags) + two_bytes(m.name) + two_bytes(m.descriptor);
        let attributes = written_attributes(m.attributes);
        lemma_stands(bytes, pos, head + two_bytes(count) + attributes, written_members(rest));
        lemma_stands(bytes, pos, head + two_bytes(count), attributes);
        lemma_stands(bytes, pos, head, two_bytes(count));
        lemma_stands(
            bytes,
            pos,
            two_bytes(m.access_flags) + two_bytes(m.name),
            two_bytes(m.descriptor),
        );
        lemma_stands(bytes, pos, two_bytes(m.access_flags), two_bytes(m.name));
        lemma_two_bytes(bytes, pos, m.access_flags);
        lemma_two_bytes(bytes, pos + 2, m.name);
        lemma_two_bytes(bytes, pos + 4, m.descriptor);
        lemma_two_bytes(bytes, pos + 6, count);
        lemma_written_attributes(bytes, pos + 8, m.attributes);
        let one = said[0];
        assert(member_at(bytes, pos, pool) == Ok::<(MemberView, int), ClassFileError>(
            (one, pos + 8 + attributes.len()),
        ));
        let others = said.skip(1);
        assert forall|k: int| 0 <= k < rest.len() implies {
            let m = #[trigger] rest[k];
            &&& others[k].access_flags == m.access_flags
            &&& holds_text(pool, m.name, others[k].name)
            &&& holds_text(pool, m.descriptor, others[k].descriptor)
            &&& valid_attributes(m.attributes)
        } by {
            assert(rest[k] == list[k + 1]);
        }
        lemma_written_members(
            bytes,
            pos + 8 + attributes.len(),
            pool,
            read.push(one),
            rest,
            others,
        );
        assert(read.push(one) + others =~= read + said);
    }
}

proof fn lemma_written_indices(
    bytes: Seq<u8>,
    pos: int,
    pool: Seq<Constant>,
    read: Seq<Seq<char>>,
    list: Seq<u16>,
    names: Seq<Seq<char>>,
)
    requires
        list.len() == names.len(),
        forall|k: int| 0 <= k < list.len() ==> holds_class(pool, #[trigger] list[k], names[k]),
        stands(bytes, pos, written_indices(list)),
    ensures
        class_names_from(bytes, pos, pool, read, list.len()) == Ok::<
            (Seq<Seq<char>>, int),
            ClassFileError,
        >((read + names, pos + written_indices(list).len())),
    decreases list.len(),
{
    if list.len() == 0 {
        assert(read + names =~= read);
    } else {
        let rest = list.skip(1);
        let others = names.skip(1);
        lemma_stands(bytes, pos, two_bytes(list[0]), written_indices(rest));
        lemma_two_bytes(bytes, pos, list[0]);
        assert(holds_class(pool, list[0], names[0]));
        assert forall|k: int| 0 <= k < rest.len() implies holds_class(
            pool,
            #[trigger] rest[k],
            others[k],
        ) by {
            assert(rest[k] == list[k + 1]);
        }
        lemma_written_indices(bytes, pos + 2, pool, read.push(names[0]), rest, others);
        assert(read.push(names[0]) + others =~= read + names);
    }
}

proof fn lemma_attribute_table(bytes: Seq<u8>, pos: int, list: Seq<(u16, Seq<u8>)>)
    requires
        valid_attributes(list),
        stands(bytes, pos, two_bytes(list.len() as u16) + written_attributes(list)),
    ensures
        attributes_at(bytes, pos) == Ok::<int, ClassFileError>(
            pos + 2 + written_attributes(list).len(),
        ),
{
    lemma_stands(bytes, pos, two_bytes(list.len() as u16), written_attributes(list));
    lemma_two_bytes(bytes, pos, list.len() as u16);
    lemma_written_attributes(bytes, pos + 2, list);
}

proof fn lemma_member_table(
    bytes: Seq<u8>,
    pos: int,
    pool: Seq<Constant>,
    list: Seq<WrittenMember>,
    said: Seq<MemberView>,
    rest: Seq<u8>,
)
    requires
        members_say(pool, list, said),
        stands(bytes, pos, two_bytes(list.len() as u16) + (written_members(list) + rest)),
    ensures
        members_at(bytes, pos, pool) == Ok::<(Seq<MemberView>, int), ClassFileError>(
            (said, pos + 2 + written_members(list).len()),
        ),
        stands(bytes, pos + 2 + written_members(list).len(), rest),
{
    lemma_stands(bytes, pos, two_bytes(list.len() as u16), written_members(list) + rest);
    lemma_two_bytes(bytes, pos, list.len() as u16);
    lemma_stands(bytes, pos + 2, written_members(list), rest);
    lemma_written_members(bytes, pos + 2, pool, Seq::empty(), list, said);
    assert(Seq::<MemberView>::empty() + said =~= said);
}

proof fn lemma_interface_table(
    bytes: Seq<u8>,
    pos: int,
    pool: Seq<Constant>,
    list: Seq<u16>,
    names: Seq<Seq<char>>,
    rest: Seq<u8>,
)
    requires
        list.len() == names.len() <= u16::MAX,
        forall|k: int| 0 <= k < list.len() ==> holds_class(pool, #[trigger] list[k], names[k]),
        stands(bytes, pos, two_bytes(list.len() as u16) + (written_indices(list) + rest)),
    ensures
        interfaces_at(bytes, pos, pool) == Ok::<(Seq<Seq<char>>, int), ClassFileError>(
            (names, pos + 2 + written_indices(list).len()),
        ),
        stands(bytes, pos + 2 + written_indices(list).len(), rest),
{
    lemma_stands(bytes, pos, two_bytes(list.len() as u16), written_indices(list) + rest);
    lemma_two_bytes(bytes, pos, list.len() as u16);
    lemma_stands(bytes, pos + 2, written_indices(list), rest);
    lemma_written_indices(bytes, pos + 2, pool, Seq::empty(), list, names);
    assert(Seq::<Seq<char>>::empty() + names =~= names);
}

proof fn lemma_written_body(
    bytes: Seq<u8>,
    pos: int,
    w: WrittenClass,
    class: ClassFileView,
    methods: Seq<MemberView>,
)
    requires
        w.says(class, methods),
        stands(bytes, pos, w.written_body()),
    ensures
        class_body_at(bytes, pos, w.pool()) is Ok,
        (class_body_at(bytes, pos, w.pool())->Ok_0).0 == class,
{
    let pool = w.pool();
    let r9 = two_bytes(w.attributes.len() as u16) + written_attributes(w.attributes);
    let r7 = two_bytes(w.methods.len() as u16) + (written_members(w.methods) + r9);
    let r5 = two_bytes(w.fields.len() as u16) + (written_members(w.fields) + r7);
    let r3 = two_bytes(w.interfaces.len() as u16) + (written_indices(w.interfaces) + r5);
    let r2 = two_bytes(w.super_class) + r3;
    let r1 = two_bytes(w.this_class) + r2;
    assert(w.written_body() == two_bytes(w.access_flags) + r1);
    lemma_stands(bytes, pos, two_bytes(w.access_flags), r1);
    lemma_two_bytes(bytes, pos, w.access_flags);
    lemma_stands(bytes, pos + 2, two_bytes(w.this_class), r2);
    lemma_two_bytes(bytes, pos + 2, w.this_class);
    lemma_stands(bytes, pos + 4, two_bytes(w.super_class), r3);
    lemma_two_bytes(bytes, pos + 4, w.super_class);
    lemma_interface_table(bytes, pos + 6, pool, w.interfaces, class.interfaces, r5);
    let p5 = pos + 8 + written_indices(w.interfaces).len();
    lemma_member_table(bytes, p5, pool, w.fields, class.fields, r7);
    let p7 = p5 + 2 + written_members(w.fields).len();
    lemma_member_table(bytes, p7, pool, w.methods, methods, r9);
    let p9 = p7 + 2 + written_members(w.methods).len();
    lemma_attribute_table(bytes, p9, w.attributes);
    let one = |m: MemberView| is_declared_method(m);
    let other = |m: MemberView| m.name != "<clinit>"@;
    assert(one =~= other);
    assert(class_constant(pool, w.this_class) == Ok::<Seq<char>, ClassFileError>(
        class.this_class,
    ));
    assert(super_class_at(bytes, pos + 4, pool) == Ok::<
        (Option<Seq<char>>, int),
        ClassFileError,
    >((class.super_class, pos + 6)));
}

proof fn lemma_written_start(bytes: Seq<u8>, w: WrittenClass, rest: Seq<u8>)
    requires
        w.version.len() == 4,
        stands(bytes, 0, seq![0xCAu8, 0xFEu8, 0xBAu8, 0xBEu8] + (w.version + rest)),
    ensures
        u32_at(bytes, 0) == Ok::<(u32, int), ClassFileError>((0xCAFEBABE, 4)),
        bytes_at(bytes, 4, 4) == Ok::<(Seq<u8>, int), ClassFileError>((w.version, 8)),
        stands(bytes, 8, rest),
{
    let magic = seq![0xCAu8, 0xFEu8, 0xBAu8, 0xBEu8];
    lemma_stands(bytes, 0, magic, w.version + rest);
    assert(four_bytes(0xCAFEBABE) =~= magic);
    lemma_four_bytes(bytes, 0, 0xCAFEBABE);
    lemma_stands(bytes, 4, w.version, rest);
    lemma_bytes_stand(bytes, 4, w.version);
}

proof fn lemma_written_pool(bytes: Seq<u8>, w: WrittenClass, rest: Seq<u8>)
    requires
        w.pool().len() <= u16::MAX,
        forall|k: int| 0 <= k < w.constants.len() ==> (#[trigger] w.constants[k]).valid(),
        stands(
            bytes,
            8,
            two_bytes(w.pool().len() as u16) + (written_constants(w.constants) + rest),
        ),
    ensures
        constant_pool_at(bytes, 8) == Ok::<(Seq<Constant>, int), ClassFileError>(
            (w.pool(), 10 + written_constants(w.constants).len() as int),
        ),
        stands(bytes, 10 + written_constants(w.constants).len() as int, rest),
{
    let count = w.pool().len() as u16;
    let constants = written_constants(w.constants);
    lemma_stands(bytes, 8, two_bytes(count), constants + rest);
    lemma_two_bytes(bytes, 8, count);
    lemma_stands(bytes, 10, constants, rest);
    lemma_written_constants(bytes, 10, seq![Constant::Unusable], w.constants);
}

proof fn lemma_class_file_is(
    bytes: Seq<u8>,
    pos: int,
    pool: Seq<Constant>,
    version: Seq<u8>,
    class: ClassFileView,
)
    requires
        u32_at(bytes, 0) == Ok::<(u32, int), ClassFileError>((0xCAFEBABE, 4)),
        bytes_at(bytes, 4, 4) == Ok::<(Seq<u8>, int), ClassFileError>((version, 8)),
        constant_pool_at(bytes, 8) == Ok::<(Seq<Constant>, int), ClassFileError>((pool, pos)),
        class_body_at(bytes, pos, pool) is Ok,
        (class_body_at(bytes, pos, pool)->Ok_0).0 == class,
    ensures
        class_file(bytes) == Ok::<ClassFileView, ClassFileError>(class),
{
    reveal(class_file_at_start);
}

/// Reading a class file gives back the class that was written: its flags, its
/// names, its interfaces, its fields, and its methods but for the static
/// initializer, whatever constants and attributes stand among them.
pub proof fn law_reading_gives_back_the_class_that_was_written(
    w: WrittenClass,
    class: ClassFileView,
    methods: Seq<MemberView>,
)
    requires
        w.says(class, methods),
    ensures
        class_file(w.written()) == Ok::<ClassFileView, ClassFileError>(class),
{
    let bytes = w.written();
    let body = w.written_body();
    let rest = two_bytes(w.pool().len() as u16) + (written_constants(w.constants) + body);
    assert(stands(bytes, 0, bytes)) by {
        reveal(stands);
        assert(bytes.subrange(0, bytes.len() as int) =~= bytes);
    }
    lemma_written_start(bytes, w, rest);
    lemma_written_pool(bytes, w, body);
    let pos = 10 + written_constants(w.constants).len() as int;
    lemma_written_body(bytes, pos, w, class, methods);
    lemma_class_file_is(bytes, pos, w.pool(), w.version, class);
}

} // verus!
