use arrow::array::{
    make_array, Array, ArrayData, ArrayRef, BinaryArray, StringArray, UInt64Array,
};
use arrow::compute::cast;
use columnar_exec::data_type::DataType;
use columnar_exec::dictionary_compaction::{
    begin, compact_dictionary, compact_dictionary_payloads, deduplicate, estimate_memory_size,
    fits_key, scratch_bytes, settle, CompactionMetrics, Deduplicated, DictionaryPayload,
    MemoryBudget, MemoryRequest, PayloadColumn,
};
use columnar_exec::error::ExecError;
use std::cell::RefCell;
use std::sync::Arc;

struct Reservation(RefCell<MemoryBudget>);

impl Reservation {
    fn answer(&self, request: MemoryRequest) -> bool {
        self.0.borrow_mut().answer(request)
    }

    fn used(&self) -> usize {
        self.0.borrow().used
    }
}

fn reservation(limit: usize) -> Reservation {
    Reservation(RefCell::new(MemoryBudget { limit, used: 0 }))
}

fn compact(
    dictionary: &DictionaryPayload<ArrayRef>,
    memory: &Reservation,
    metrics: &mut CompactionMetrics,
) -> Result<Option<DictionaryPayload<ArrayRef>>, ExecError> {
    compact_dictionary(dictionary, &build, &|request| memory.answer(request), metrics)
}

fn compact_all(
    columns: Vec<PayloadColumn<ArrayRef>>,
    memory: &Reservation,
    metrics: &mut CompactionMetrics,
) -> Result<(Vec<PayloadColumn<ArrayRef>>, bool), ExecError> {
    compact_dictionary_payloads(columns, &build, &|request| memory.answer(request), metrics)
}

fn dictionary_array(key_type: &DataType, keys: &[Option<usize>], values: &ArrayData) -> ArrayRef {
    let key_type = match key_type {
        DataType::Int8 => arrow::datatypes::DataType::Int8,
        DataType::UInt8 => arrow::datatypes::DataType::UInt8,
        _ => arrow::datatypes::DataType::Int32,
    };
    let keys: UInt64Array = keys.iter().map(|key| key.map(|key| key as u64)).collect();
    let keys = cast(&keys, &key_type).unwrap().to_data();
    let data_type = arrow::datatypes::DataType::Dictionary(
        Box::new(key_type),
        Box::new(values.data_type().clone()),
    );
    let keys = keys.into_builder().data_type(data_type).child_data(vec![values.clone()]);
    make_array(keys.build().unwrap())
}

fn build(key_type: &DataType, compacted: &Deduplicated) -> Result<(ArrayRef, usize), ExecError> {
    let array = dictionary_array(key_type, &compacted.keys, &compacted.values);
    let memory_size = array.get_array_memory_size();
    Ok((array, memory_size))
}

fn no_metrics() -> CompactionMetrics {
    CompactionMetrics { build_mem_used: 0, build_dictionary_values_deduplicated: 0 }
}

fn strings(values: Vec<Option<&str>>) -> ArrayData {
    StringArray::from(values).to_data()
}

fn bytes(values: Vec<&[u8]>) -> ArrayData {
    BinaryArray::from(values).to_data()
}

fn payload(
    key_type: DataType,
    keys: Vec<Option<usize>>,
    values: ArrayData,
) -> DictionaryPayload<ArrayRef> {
    let array = dictionary_array(&key_type, &keys, &values);
    let memory_size = array.get_array_memory_size();
    DictionaryPayload { array, memory_size, key_type, keys, values }
}

fn texts(values: &ArrayData) -> Vec<Option<String>> {
    let array: ArrayRef = make_array(values.clone());
    let array = cast(&array, &arrow::datatypes::DataType::Utf8).unwrap();
    StringArray::from(array.to_data()).iter().map(|text| text.map(str::to_owned)).collect()
}

fn decode(keys: &[Option<usize>], values: &ArrayData) -> Vec<Option<String>> {
    let values = texts(values);
    keys.iter().map(|key| key.and_then(|key| values[key].clone())).collect()
}

fn decoded(dictionary: &DictionaryPayload<ArrayRef>) -> Vec<Option<String>> {
    decode(&dictionary.keys, &dictionary.values)
}

fn owned(values: &[Option<&str>]) -> Vec<Option<String>> {
    values.iter().map(|value| value.map(str::to_owned)).collect()
}

#[test]
fn compact_dictionary_preserves_slices_and_nullable_keys() {
    for value_type in [arrow::datatypes::DataType::Utf8, arrow::datatypes::DataType::Binary] {
        let values = StringArray::from(vec!["unused", "red", "blue", "red", "blue"]);
        let values = cast(&values, &value_type).unwrap();
        let keys = [Some(3), Some(0), None, Some(2), Some(1)];
        let dictionary =
            payload(DataType::Int32, keys[1..5].to_vec(), values.slice(1, 4).to_data());
        let mut metrics = no_metrics();
        let memory = reservation(1 << 20);
        let (columns, changed) =
            compact_all(vec![PayloadColumn::Dictionary(dictionary)], &memory, &mut metrics).unwrap();
        assert!(changed);
        let PayloadColumn::Dictionary(output) = &columns[0] else { unreachable!() };
        assert_eq!(output.key_type, DataType::Int32);
        assert_eq!(output.values.data_type(), &value_type);
        assert_eq!(
            cast(&output.array, &arrow::datatypes::DataType::Utf8).unwrap().as_ref(),
            &StringArray::from(vec![Some("red"), None, Some("red"), Some("blue")]) as &dyn Array
        );
        assert_eq!(output.values.len(), 2);
        assert_eq!(
            decoded(output),
            owned(&[Some("red"), None, Some("red"), Some("blue")])
        );
        assert_eq!(metrics.build_dictionary_values_deduplicated, 2);
        assert_eq!(memory.used(), metrics.build_mem_used);
    }
}

#[test]
fn compact_dictionary_keeps_valid_fallbacks() {
    let mut metrics = no_metrics();
    let memory = reservation(1 << 20);
    let empty = payload(DataType::Int32, vec![], bytes(vec![b"a", b"a"]));
    assert!(compact(&empty, &memory, &mut metrics).unwrap().is_none());
    let nullable = payload(
        DataType::Int32,
        vec![Some(0), Some(1), Some(0)],
        strings(vec![Some("a"), None]),
    );
    let handle = Arc::clone(&nullable.array);
    let (output, changed) =
        compact_all(vec![PayloadColumn::Dictionary(nullable)], &memory, &mut metrics).unwrap();
    assert!(!changed);
    let PayloadColumn::Dictionary(output) = &output[0] else { unreachable!() };
    assert!(Arc::ptr_eq(&output.array, &handle));
    assert_eq!(decoded(output), owned(&[Some("a"), None, Some("a")]));
    let many: Vec<String> = (0..129).map(|i: i32| i.to_string()).collect();
    let oversized = payload(
        DataType::Int8,
        vec![Some(0)],
        strings(many.iter().map(|text| Some(text.as_str())).collect()),
    );
    assert!(compact(&oversized, &memory, &mut metrics).unwrap().is_none());
    let duplicate =
        payload(DataType::Int32, vec![Some(0), Some(1)], bytes(vec![b"a", b"a"]));
    assert!(compact(&duplicate, &reservation(0), &mut metrics).unwrap().is_none());
    assert_eq!(metrics, no_metrics());
    assert_eq!(memory.used(), 0);
}

#[test]
fn values_are_kept_in_the_order_of_their_first_rows() {
    let dictionary = payload(
        DataType::UInt8,
        vec![Some(4), Some(3), Some(2), Some(1), Some(0), None],
        strings(vec![Some("b"), Some("a"), Some("b"), Some("c"), Some("a")]),
    );
    let compacted = deduplicate(&dictionary).unwrap().unwrap();
    assert_eq!(texts(&compacted.values), owned(&[Some("b"), Some("a"), Some("c")]));
    assert_eq!(
        compacted.keys,
        vec![Some(1), Some(2), Some(0), Some(1), Some(0), None]
    );
    assert_eq!(decode(&compacted.keys, &compacted.values), decoded(&dictionary));
    // A second time there is nothing left to drop.
    let again = payload(DataType::UInt8, compacted.keys, compacted.values);
    assert!(deduplicate(&again).unwrap().is_none());
}

#[test]
fn columns_without_repeats_stay_as_they_are() {
    let distinct =
        payload(DataType::Int32, vec![Some(1)], strings(vec![Some("a"), Some("b")]));
    let plain = make_array(strings(vec![Some("a"), Some("a")]));
    let numbers = payload(
        DataType::Int32,
        vec![Some(0), Some(1)],
        arrow::array::Int32Array::from(vec![1, 1]).to_data(),
    );
    let mut metrics = no_metrics();
    let handles = [Arc::clone(&distinct.array), Arc::clone(&plain), Arc::clone(&numbers.array)];
    let (output, changed) = compact_all(
        vec![
            PayloadColumn::Dictionary(distinct),
            PayloadColumn::Plain(plain),
            PayloadColumn::Dictionary(numbers),
        ],
        &reservation(1 << 20),
        &mut metrics,
    )
    .unwrap();
    assert!(!changed);
    assert_eq!(output.len(), 3);
    for (column, handle) in output.iter().zip(handles) {
        let array = match column {
            PayloadColumn::Dictionary(dictionary) => &dictionary.array,
            PayloadColumn::Plain(array) => array,
        };
        assert!(Arc::ptr_eq(array, &handle));
    }
}

#[test]
fn scratch_memory_covers_a_copy_and_a_table() {
    // 1024 entries need 1170 buckets, rounded up to 2048 of 17 bytes.
    assert_eq!(estimate_memory_size(1024, 0), Some(2048 * 17));
    assert_eq!(estimate_memory_size(7, 5), Some(8 * 17 + 5));
    assert_eq!(estimate_memory_size(usize::MAX, 0), None);
    assert_eq!(scratch_bytes(100, 3).unwrap(), 2048 * 17 + 200);
    assert_eq!(scratch_bytes(0, 2000).unwrap(), 4096 * 17);
    assert!(matches!(scratch_bytes(usize::MAX, 3), Err(ExecError::CompactionSize)));
}

#[test]
fn compaction_starts_where_its_memory_is_there() {
    let mut dictionary =
        payload(DataType::Int32, vec![Some(0)], strings(vec![Some("a"), Some("a")]));
    dictionary.memory_size = 100;
    let need = 2048 * 17 + 200;
    assert_eq!(begin(&dictionary).unwrap(), Some(need));
    let mut metrics = no_metrics();
    assert!(compact(&dictionary, &reservation(need - 1), &mut metrics).unwrap().is_none());
    let memory = reservation(need + (1 << 20));
    let output = compact(&dictionary, &memory, &mut metrics).unwrap().unwrap();
    assert_eq!(memory.used(), output.memory_size - 100);
    assert_eq!(metrics.build_mem_used, memory.used());
    // There is memory to work with, and none for what the compacted column occupies.
    let memory = reservation(need);
    assert!(compact(&dictionary, &memory, &mut metrics).unwrap().is_none());
    assert_eq!(memory.used(), 0);
    dictionary.memory_size = usize::MAX;
    assert!(matches!(begin(&dictionary), Err(ExecError::CompactionSize)));
    let unkeyed =
        payload(DataType::Utf8, vec![Some(0)], strings(vec![Some("a"), Some("a")]));
    assert_eq!(begin(&unkeyed).unwrap(), None);
}

#[test]
fn compaction_asks_for_what_the_arrays_occupy() {
    let dictionary =
        payload(DataType::Int32, vec![Some(0), Some(1)], strings(vec![Some("a"), Some("a")]));
    let requests = RefCell::new(vec![]);
    let ask = |request: MemoryRequest| {
        requests.borrow_mut().push(request);
        true
    };
    let output =
        compact_dictionary(&dictionary, &build, &ask, &mut no_metrics()).unwrap().unwrap();
    let need = 2048 * 17 + 2 * dictionary.array.get_array_memory_size();
    let extra = output
        .array
        .get_array_memory_size()
        .saturating_sub(dictionary.array.get_array_memory_size());
    assert_eq!(
        requests.into_inner(),
        vec![
            MemoryRequest::Scratch(need),
            MemoryRequest::Build(extra),
            MemoryRequest::Release(need)
        ]
    );
}

#[test]
fn what_building_says_is_returned() {
    let dictionary =
        payload(DataType::Int32, vec![Some(0), Some(1)], strings(vec![Some("a"), Some("a")]));
    let memory = reservation(1 << 20);
    let result = compact_dictionary(
        &dictionary,
        &|_: &DataType, _: &Deduplicated| Err(ExecError::UnexpectedColumn),
        &|request| memory.answer(request),
        &mut no_metrics(),
    );
    assert!(matches!(result, Err(ExecError::UnexpectedColumn)));
    assert_eq!(memory.used(), 0);
}

#[test]
fn memory_goes_to_whoever_comes_first() {
    let mut budget = MemoryBudget { limit: 100, used: 10 };
    assert!(budget.answer(MemoryRequest::Scratch(60)));
    assert!(!budget.answer(MemoryRequest::Build(31)));
    assert_eq!(budget.used, 70);
    assert!(budget.answer(MemoryRequest::Build(30)));
    assert!(budget.answer(MemoryRequest::Release(60)));
    assert_eq!(budget, MemoryBudget { limit: 100, used: 40 });
}

#[test]
fn metrics_count_bytes_and_values() {
    let mut metrics = no_metrics();
    settle(&mut metrics, 30, 3);
    settle(&mut metrics, 0, 1);
    assert_eq!(metrics.build_mem_used, 30);
    assert_eq!(metrics.build_dictionary_values_deduplicated, 4);
}

#[test]
fn keys_fit_their_types() {
    assert!(fits_key(&DataType::Int8, 127));
    assert!(!fits_key(&DataType::Int8, 128));
    assert!(fits_key(&DataType::UInt8, 255));
    assert!(!fits_key(&DataType::UInt16, 65536));
    assert!(fits_key(&DataType::Int64, usize::MAX / 2));
    assert!(!fits_key(&DataType::Int64, usize::MAX));
    assert!(fits_key(&DataType::UInt64, usize::MAX));
    assert!(!fits_key(&DataType::Utf8, 0));
}

#[test]
fn every_compacted_column_is_counted() {
    let column = || {
        PayloadColumn::Dictionary(payload(
            DataType::Int32,
            vec![Some(0), Some(1), Some(2)],
            strings(vec![Some("a"), Some("b"), Some("a")]),
        ))
    };
    let mut metrics = no_metrics();
    let memory = reservation(1 << 20);
    let (output, changed) =
        compact_all(vec![column(), column()], &memory, &mut metrics).unwrap();
    assert!(changed);
    assert_eq!(output.len(), 2);
    assert_eq!(metrics.build_dictionary_values_deduplicated, 2);
    assert_eq!(metrics.build_mem_used, memory.used());
    // Without memory nothing changes.
    let tight = reservation(0);
    let (_, changed) = compact_all(vec![column(), column()], &tight, &mut metrics).unwrap();
    assert!(!changed);
    assert_eq!(tight.used(), 0);
    assert_eq!(metrics.build_dictionary_values_deduplicated, 2);
}
