use vstd::prelude::*;
use crate::instructions::Chunk;
use crate::emitter::{lemma_position_of_text, position_of};
use crate::value::{HeavyValue, LightValue};

verus! {

/// The constants a program loads, each held once, the heavy constants
/// (strings) they refer to, and the bodies of the program's functions.
pub struct ConstantsPool {
    pub constants: Vec<LightValue>,
    pub heavy_constants: Vec<HeavyValue>,
    pub functions: Vec<Vec<Chunk>>,
}

/// The text of a heavy constant.
pub open spec fn heavy_text(value: HeavyValue) -> Seq<char> {
    match value {
        HeavyValue::String(string) => string@,
    }
}

/// The constants after `constant` is added: unchanged if it is there, else
/// with it at the end.
pub open spec fn with_constant(constants: Seq<LightValue>, constant: LightValue) -> Seq<LightValue> {
    if constants.contains(constant) {
        constants
    } else {
        constants.push(constant)
    }
}

/// The heavy texts after `text` is added: unchanged if it is there, else
/// with it at the end.
pub open spec fn with_text(texts: Seq<Seq<char>>, text: Seq<char>) -> Seq<Seq<char>> {
    if texts.contains(text) {
        texts
    } else {
        texts.push(text)
    }
}

/// Nothing occurs twice in a sequence.
pub open spec fn distinct<T>(items: Seq<T>) -> bool {
    forall|i: int, j: int| 0 <= i < j < items.len() ==> items[i] != items[j]
}

/// The texts of the heavy constants.
pub open spec fn heavy_texts(heavy: Seq<HeavyValue>) -> Seq<Seq<char>> {
    heavy.map_values(|value: HeavyValue| heavy_text(value))
}

impl ConstantsPool {
    /// Every constant and every heavy text is held once.
    pub open spec fn wf(&self) -> bool {
        &&& distinct(self.constants@)
        &&& distinct(heavy_texts(self.heavy_constants@))
    }

    /// An empty pool with room for `define_function_count` function bodies, each empty.
    pub fn new(define_function_count: usize) -> (pool: ConstantsPool)
        ensures
            pool.wf(),
            pool.constants@.len() == 0,
            pool.heavy_constants@.len() == 0,
            pool.functions@.len() == define_function_count,
            forall|i: int| 0 <= i < define_function_count ==> #[trigger] pool.functions@[i]@.len() == 0,
    {
        let mut functions: Vec<Vec<Chunk>> = Vec::new();
        let mut count: usize = 0;
        while count < define_function_count
            invariant
                count <= define_function_count,
                functions@.len() == count,
                forall|i: int| 0 <= i < count ==> #[trigger] functions@[i]@.len() == 0,
            decreases define_function_count - count,
        {
            functions.push(Vec::new());
            count += 1;
        }
        ConstantsPool { constants: Vec::new(), heavy_constants: Vec::new(), functions }
    }

    /// The index of `constant` in the pool, adding it at the end when it is not there yet.
    pub fn add_constant(&mut self, constant: LightValue) -> (index: usize)
        requires
            old(self).wf(),
        ensures
            final(self).wf(),
            final(self).heavy_constants == old(self).heavy_constants,
            final(self).functions == old(self).functions,
            old(self).constants@.contains(constant) ==> final(self).constants@ == old(
                self,
            ).constants@,
            !old(self).constants@.contains(constant) ==> final(self).constants@ == old(
                self,
            ).constants@.push(constant) && index == old(self).constants@.len(),
            final(self).constants@ == with_constant(old(self).constants@, constant),
            index < final(self).constants@.len(),
            final(self).constants@[index as int] == constant,
    {
        let mut index: usize = 0;
        while index < self.constants.len()
            invariant
                *self == *old(self),
                self.wf(),
                index <= self.constants@.len(),
                forall|i: int| 0 <= i < index ==> self.constants@[i] != constant,
            decreases self.constants@.len() - index,
        {
            if self.constants[index] == constant {
                return index;
            }
            index += 1;
        }
        self.constants.push(constant);
        index
    }

    /// Stores the body of function `index`.
    pub fn write_function_body(&mut self, index: usize, body: Vec<Chunk>)
        requires
            index < old(self).functions@.len(),
        ensures
            final(self).functions@ == old(self).functions@.update(index as int, body),
            final(self).constants == old(self).constants,
            final(self).heavy_constants == old(self).heavy_constants,
    {
        self.functions.set(index, body);
    }

    /// The position of a heavy constant with the given text, if any.
    fn find_heavy(&self, text: &String) -> (found: Option<usize>)
        ensures
            match found {
                Some(i) => i < self.heavy_constants@.len() && heavy_texts(self.heavy_constants@)[i as int] == text@,
                None => !heavy_texts(self.heavy_constants@).contains(text@),
            },
    {
        let mut heavy_index: usize = 0;
        while heavy_index < self.heavy_constants.len()
            invariant
                heavy_index <= self.heavy_constants@.len(),
                forall|i: int| 0 <= i < heavy_index ==> heavy_texts(self.heavy_constants@)[i] != text@,
            decreases self.heavy_constants@.len() - heavy_index,
        {
            let HeavyValue::String(existing) = &self.heavy_constants[heavy_index];
            if *existing == *text {
                return Some(heavy_index);
            }
            heavy_index += 1;
        }
        None
    }

    /// Adds the text of a heavy constant once, then adds a pointer to it as a
    /// constant; returns the index of that pointer constant.
    pub fn add_heavy_constant(&mut self, constant: &HeavyValue) -> (index: usize)
        requires
            old(self).wf(),
        ensures
            final(self).wf(),
            final(self).functions == old(self).functions,
            heavy_texts(old(self).heavy_constants@).contains(heavy_text(*constant))
                ==> heavy_texts(final(self).heavy_constants@) == heavy_texts(
                old(self).heavy_constants@,
            ),
            !heavy_texts(old(self).heavy_constants@).contains(heavy_text(*constant))
                ==> heavy_texts(final(self).heavy_constants@) == heavy_texts(
                old(self).heavy_constants@,
            ).push(heavy_text(*constant)),
            heavy_texts(final(self).heavy_constants@) == with_text(heavy_texts(old(self).heavy_constants@), heavy_text(*constant)),
            final(self).constants@ == with_constant(
                old(self).constants@,
                LightValue::StringPointer((position_of(heavy_texts(final(self).heavy_constants@), heavy_text(*constant)) % 0x1_0000_0000) as u32),
            ),
            index < final(self).constants@.len(),
            exists|h: int|
                0 <= h < final(self).heavy_constants@.len() && #[trigger] heavy_texts(final(self).heavy_constants@)[h]
                    == heavy_text(*constant) && final(self).constants@[index as int]
                    == LightValue::StringPointer((h % 0x1_0000_0000) as u32),
            forall|c: LightValue| #[trigger] old(self).constants@.contains(c) ==> final(self).constants@.contains(c),
            old(self).constants@.len() <= final(self).constants@.len(),
            final(self).constants@.take(old(self).constants@.len() as int) == old(self).constants@,
            heavy_texts(old(self).heavy_constants@).len() <= heavy_texts(final(self).heavy_constants@).len(),
            heavy_texts(final(self).heavy_constants@).take(heavy_texts(old(self).heavy_constants@).len() as int)
                == heavy_texts(old(self).heavy_constants@),
    {
        let HeavyValue::String(text) = constant;
        let ghost old_heavy = heavy_texts(self.heavy_constants@);
        let heavy_index = match self.find_heavy(text) {
            Some(found) => found,
            None => {
                let position = self.heavy_constants.len();
                self.heavy_constants.push(HeavyValue::String(text.clone()));
                assert(heavy_texts(self.heavy_constants@) =~= old_heavy.push(text@));
                assert(heavy_texts(self.heavy_constants@)[position as int] == text@);
                position
            },
        };
        assert(heavy_texts(self.heavy_constants@)[heavy_index as int] == heavy_text(*constant));
        proof {
            lemma_position_of_text(heavy_texts(self.heavy_constants@), heavy_index as int);
        }
        let pointer = LightValue::StringPointer((heavy_index as u64 % 0x1_0000_0000) as u32);
        let ghost before = self.constants@;
        let index = self.add_constant(pointer);
        assert(self.constants@.take(before.len() as int) =~= before);
        assert(heavy_texts(self.heavy_constants@).take(old_heavy.len() as int) =~= old_heavy);
        assert forall|c: LightValue| #[trigger] before.contains(c) implies self.constants@.contains(c) by {
            let i = choose|i: int| 0 <= i < before.len() && before[i] == c;
            assert(self.constants@[i] == c);
        }
        index
    }
}

} // verus!
