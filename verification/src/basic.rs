//! The enumerations of the Parquet format that the encoders refer to, with
//! their names and their numbers in the format.

use vstd::prelude::*;
use vstd::string::StringExecFns;
use crate::errors::ParquetError;

verus! {

/// Whether `text` reads `word`.
fn same_text(text: &String, word: &str) -> (r: bool)
    ensures
        r == (text@ == word@),
{
    let owned = word.to_owned();
    *text == owned
}

/// `prefix` followed by `text`.
fn message(prefix: &str, text: &str) -> (m: String)
    ensures
        m@ == prefix@ + text@,
{
    String::from_str(prefix).concat(text)
}

/// The physical types: how a value lies on disk.
#[allow(non_camel_case_types)]
#[derive(Debug, Clone, Copy, PartialEq, Eq, Structural)]
pub enum Type {
    /// One bit per value.
    BOOLEAN,
    /// Four bytes, little-endian.
    INT32,
    /// Eight bytes, little-endian.
    INT64,
    /// Twelve bytes.
    INT96,
    /// Four bytes, IEEE 754, little-endian.
    FLOAT,
    /// Eight bytes, IEEE 754, little-endian.
    DOUBLE,
    /// A length and that many bytes.
    BYTE_ARRAY,
    /// Bytes of the column's fixed length.
    FIXED_LEN_BYTE_ARRAY,
}

impl Type {
    /// The name of the value, as the format writes it.
    pub open spec fn name(self) -> Seq<char> {
        match self {
            Type::BOOLEAN => "BOOLEAN"@,
            Type::INT32 => "INT32"@,
            Type::INT64 => "INT64"@,
            Type::INT96 => "INT96"@,
            Type::FLOAT => "FLOAT"@,
            Type::DOUBLE => "DOUBLE"@,
            Type::BYTE_ARRAY => "BYTE_ARRAY"@,
            Type::FIXED_LEN_BYTE_ARRAY => "FIXED_LEN_BYTE_ARRAY"@,
        }
    }

    /// The value that has the number `code` in the format, if any.
    pub open spec fn of_code(code: int) -> Option<Type> {
        if code == 0 {
            Some(Type::BOOLEAN)
        } else if code == 1 {
            Some(Type::INT32)
        } else if code == 2 {
            Some(Type::INT64)
        } else if code == 3 {
            Some(Type::INT96)
        } else if code == 4 {
            Some(Type::FLOAT)
        } else if code == 5 {
            Some(Type::DOUBLE)
        } else if code == 6 {
            Some(Type::BYTE_ARRAY)
        } else if code == 7 {
            Some(Type::FIXED_LEN_BYTE_ARRAY)
        } else {
            None
        }
    }

    /// The name of the value, as the format writes it.
    pub fn to_string(&self) -> (s: String)
        ensures
            s@ == self.name(),
    {
        match self {
            Type::BOOLEAN => "BOOLEAN".to_string(),
            Type::INT32 => "INT32".to_string(),
            Type::INT64 => "INT64".to_string(),
            Type::INT96 => "INT96".to_string(),
            Type::FLOAT => "FLOAT".to_string(),
            Type::DOUBLE => "DOUBLE".to_string(),
            Type::BYTE_ARRAY => "BYTE_ARRAY".to_string(),
            Type::FIXED_LEN_BYTE_ARRAY => "FIXED_LEN_BYTE_ARRAY".to_string(),
        }
    }

    /// The value that has the number `code` in the format, if any.
    pub fn from_code(code: i32) -> (r: Option<Type>)
        ensures
            r == Type::of_code(code as int),
    {
        match code {
            0 => Some(Type::BOOLEAN),
            1 => Some(Type::INT32),
            2 => Some(Type::INT64),
            3 => Some(Type::INT96),
            4 => Some(Type::FLOAT),
            5 => Some(Type::DOUBLE),
            6 => Some(Type::BYTE_ARRAY),
            7 => Some(Type::FIXED_LEN_BYTE_ARRAY),
            _ => None,
        }
    }

    /// The value that `name` names, if any.
    pub open spec fn of_name(name: Seq<char>) -> Option<Type> {
        if name == "BOOLEAN"@ {
            Some(Type::BOOLEAN)
        } else if name == "INT32"@ {
            Some(Type::INT32)
        } else if name == "INT64"@ {
            Some(Type::INT64)
        } else if name == "INT96"@ {
            Some(Type::INT96)
        } else if name == "FLOAT"@ {
            Some(Type::FLOAT)
        } else if name == "DOUBLE"@ {
            Some(Type::DOUBLE)
        } else if name == "BYTE_ARRAY"@ {
            Some(Type::BYTE_ARRAY)
        } else if name == "BINARY"@ {
            Some(Type::BYTE_ARRAY)
        } else if name == "FIXED_LEN_BYTE_ARRAY"@ {
            Some(Type::FIXED_LEN_BYTE_ARRAY)
        } else {
            None
        }
    }

    /// Reads a value from its name. A name that names none is an error
    /// that quotes it.
    pub fn from_str(s: &str) -> (r: Result<Type, ParquetError>)
        ensures
            match Type::of_name(s@) {
                Some(v) => r == Ok::<Type, ParquetError>(v),
                None => r matches Err(ParquetError::General(m)) && m@ == "Invalid type "@ + s@,
            },
    {
        let text = s.to_owned();
        if same_text(&text, "BOOLEAN") {
            Ok(Type::BOOLEAN)
        } else if same_text(&text, "INT32") {
            Ok(Type::INT32)
        } else if same_text(&text, "INT64") {
            Ok(Type::INT64)
        } else if same_text(&text, "INT96") {
            Ok(Type::INT96)
        } else if same_text(&text, "FLOAT") {
            Ok(Type::FLOAT)
        } else if same_text(&text, "DOUBLE") {
            Ok(Type::DOUBLE)
        } else if same_text(&text, "BYTE_ARRAY") {
            Ok(Type::BYTE_ARRAY)
        } else if same_text(&text, "BINARY") {
            Ok(Type::BYTE_ARRAY)
        } else if same_text(&text, "FIXED_LEN_BYTE_ARRAY") {
            Ok(Type::FIXED_LEN_BYTE_ARRAY)
        } else {
            Err(ParquetError::General(message("Invalid type ", s)))
        }
    }

    /// Reading the name of a value gives the value back.
    pub proof fn lemma_name_round_trip(self)
        ensures
            Type::of_name(self.name()) == Some(self),
    {
        reveal_strlit("BOOLEAN");
        reveal_strlit("INT32");
        reveal_strlit("INT64");
        reveal_strlit("INT96");
        reveal_strlit("FLOAT");
        reveal_strlit("DOUBLE");
        reveal_strlit("BYTE_ARRAY");
        reveal_strlit("BINARY");
        reveal_strlit("FIXED_LEN_BYTE_ARRAY");
        match self {
            Type::BOOLEAN => {
            },
            Type::INT32 => {
                assert("INT32"@.len() != "BOOLEAN"@.len());
            },
            Type::INT64 => {
                assert("INT64"@.len() != "BOOLEAN"@.len());
                assert("INT64"@[3] != "INT32"@[3]);
            },
            Type::INT96 => {
                assert("INT96"@.len() != "BOOLEAN"@.len());
                assert("INT96"@[3] != "INT32"@[3]);
                assert("INT96"@[3] != "INT64"@[3]);
            },
            Type::FLOAT => {
                assert("FLOAT"@.len() != "BOOLEAN"@.len());
                assert("FLOAT"@[0] != "INT32"@[0]);
                assert("FLOAT"@[0] != "INT64"@[0]);
                assert("FLOAT"@[0] != "INT96"@[0]);
            },
            Type::DOUBLE => {
                assert("DOUBLE"@.len() != "BOOLEAN"@.len());
                assert("DOUBLE"@.len() != "INT32"@.len());
                assert("DOUBLE"@.len() != "INT64"@.len());
                assert("DOUBLE"@.len() != "INT96"@.len());
                assert("DOUBLE"@.len() != "FLOAT"@.len());
            },
            Type::BYTE_ARRAY => {
                assert("BYTE_ARRAY"@.len() != "BOOLEAN"@.len());
                assert("BYTE_ARRAY"@.len() != "INT32"@.len());
                assert("BYTE_ARRAY"@.len() != "INT64"@.len());
                assert("BYTE_ARRAY"@.len() != "INT96"@.len());
                assert("BYTE_ARRAY"@.len() != "FLOAT"@.len());
                assert("BYTE_ARRAY"@.len() != "DOUBLE"@.len());
            },
            Type::FIXED_LEN_BYTE_ARRAY => {
                assert("FIXED_LEN_BYTE_ARRAY"@.len() != "BOOLEAN"@.len());
                assert("FIXED_LEN_BYTE_ARRAY"@.len() != "INT32"@.len());
                assert("FIXED_LEN_BYTE_ARRAY"@.len() != "INT64"@.len());
                assert("FIXED_LEN_BYTE_ARRAY"@.len() != "INT96"@.len());
                assert("FIXED_LEN_BYTE_ARRAY"@.len() != "FLOAT"@.len());
                assert("FIXED_LEN_BYTE_ARRAY"@.len() != "DOUBLE"@.len());
                assert("FIXED_LEN_BYTE_ARRAY"@.len() != "BYTE_ARRAY"@.len());
                assert("FIXED_LEN_BYTE_ARRAY"@.len() != "BINARY"@.len());
            },
        }
    }
}

impl std::str::FromStr for Type {
    type Err = ParquetError;

    /// Reads a value from its name, as the function of the same name of
    /// the type itself does.
    fn from_str(s: &str) -> (r: Result<Type, ParquetError>)
        ensures
            match Type::of_name(s@) {
                Some(v) => r == Ok::<Type, ParquetError>(v),
                None => r matches Err(ParquetError::General(m)) && m@ == "Invalid type "@ + s@,
            },
    {
        Type::from_str(s)
    }
}

/// The logical types: what frameworks read into a physical type.
#[allow(non_camel_case_types)]
#[derive(Debug, Clone, Copy, PartialEq, Eq, Structural)]
pub enum LogicalType {
    NONE,
    UTF8,
    MAP,
    MAP_KEY_VALUE,
    LIST,
    ENUM,
    DECIMAL,
    DATE,
    TIME_MILLIS,
    TIME_MICROS,
    TIMESTAMP_MILLIS,
    TIMESTAMP_MICROS,
    UINT_8,
    UINT_16,
    UINT_32,
    UINT_64,
    INT_8,
    INT_16,
    INT_32,
    INT_64,
    JSON,
    BSON,
    INTERVAL,
}

impl LogicalType {
    /// The name of the value, as the format writes it.
    pub open spec fn name(self) -> Seq<char> {
        match self {
            LogicalType::NONE => "NONE"@,
            LogicalType::UTF8 => "UTF8"@,
            LogicalType::MAP => "MAP"@,
            LogicalType::MAP_KEY_VALUE => "MAP_KEY_VALUE"@,
            LogicalType::LIST => "LIST"@,
            LogicalType::ENUM => "ENUM"@,
            LogicalType::DECIMAL => "DECIMAL"@,
            LogicalType::DATE => "DATE"@,
            LogicalType::TIME_MILLIS => "TIME_MILLIS"@,
            LogicalType::TIME_MICROS => "TIME_MICROS"@,
            LogicalType::TIMESTAMP_MILLIS => "TIMESTAMP_MILLIS"@,
            LogicalType::TIMESTAMP_MICROS => "TIMESTAMP_MICROS"@,
            LogicalType::UINT_8 => "UINT_8"@,
            LogicalType::UINT_16 => "UINT_16"@,
            LogicalType::UINT_32 => "UINT_32"@,
            LogicalType::UINT_64 => "UINT_64"@,
            LogicalType::INT_8 => "INT_8"@,
            LogicalType::INT_16 => "INT_16"@,
            LogicalType::INT_32 => "INT_32"@,
            LogicalType::INT_64 => "INT_64"@,
            LogicalType::JSON => "JSON"@,
            LogicalType::BSON => "BSON"@,
            LogicalType::INTERVAL => "INTERVAL"@,
        }
    }

    /// The value that has the number `code` in the format, if any.
    pub open spec fn of_code(code: int) -> Option<LogicalType> {
        if code == 0 {
            Some(LogicalType::UTF8)
        } else if code == 1 {
            Some(LogicalType::MAP)
        } else if code == 2 {
            Some(LogicalType::MAP_KEY_VALUE)
        } else if code == 3 {
            Some(LogicalType::LIST)
        } else if code == 4 {
            Some(LogicalType::ENUM)
        } else if code == 5 {
            Some(LogicalType::DECIMAL)
        } else if code == 6 {
            Some(LogicalType::DATE)
        } else if code == 7 {
            Some(LogicalType::TIME_MILLIS)
        } else if code == 8 {
            Some(LogicalType::TIME_MICROS)
        } else if code == 9 {
            Some(LogicalType::TIMESTAMP_MILLIS)
        } else if code == 10 {
            Some(LogicalType::TIMESTAMP_MICROS)
        } else if code == 11 {
            Some(LogicalType::UINT_8)
        } else if code == 12 {
            Some(LogicalType::UINT_16)
        } else if code == 13 {
            Some(LogicalType::UINT_32)
        } else if code == 14 {
            Some(LogicalType::UINT_64)
        } else if code == 15 {
            Some(LogicalType::INT_8)
        } else if code == 16 {
            Some(LogicalType::INT_16)
        } else if code == 17 {
            Some(LogicalType::INT_32)
        } else if code == 18 {
            Some(LogicalType::INT_64)
        } else if code == 19 {
            Some(LogicalType::JSON)
        } else if code == 20 {
            Some(LogicalType::BSON)
        } else if code == 21 {
            Some(LogicalType::INTERVAL)
        } else {
            None
        }
    }

    /// The name of the value, as the format writes it.
    pub fn to_string(&self) -> (s: String)
        ensures
            s@ == self.name(),
    {
        match self {
            LogicalType::NONE => "NONE".to_string(),
            LogicalType::UTF8 => "UTF8".to_string(),
            LogicalType::MAP => "MAP".to_string(),
            LogicalType::MAP_KEY_VALUE => "MAP_KEY_VALUE".to_string(),
            LogicalType::LIST => "LIST".to_string(),
            LogicalType::ENUM => "ENUM".to_string(),
            LogicalType::DECIMAL => "DECIMAL".to_string(),
            LogicalType::DATE => "DATE".to_string(),
            LogicalType::TIME_MILLIS => "TIME_MILLIS".to_string(),
            LogicalType::TIME_MICROS => "TIME_MICROS".to_string(),
            LogicalType::TIMESTAMP_MILLIS => "TIMESTAMP_MILLIS".to_string(),
            LogicalType::TIMESTAMP_MICROS => "TIMESTAMP_MICROS".to_string(),
            LogicalType::UINT_8 => "UINT_8".to_string(),
            LogicalType::UINT_16 => "UINT_16".to_string(),
            LogicalType::UINT_32 => "UINT_32".to_string(),
            LogicalType::UINT_64 => "UINT_64".to_string(),
            LogicalType::INT_8 => "INT_8".to_string(),
            LogicalType::INT_16 => "INT_16".to_string(),
            LogicalType::INT_32 => "INT_32".to_string(),
            LogicalType::INT_64 => "INT_64".to_string(),
            LogicalType::JSON => "JSON".to_string(),
            LogicalType::BSON => "BSON".to_string(),
            LogicalType::INTERVAL => "INTERVAL".to_string(),
        }
    }

    /// The value that has the number `code` in the format, if any.
    pub fn from_code(code: i32) -> (r: Option<LogicalType>)
        ensures
            r == LogicalType::of_code(code as int),
    {
        match code {
            0 => Some(LogicalType::UTF8),
            1 => Some(LogicalType::MAP),
            2 => Some(LogicalType::MAP_KEY_VALUE),
            3 => Some(LogicalType::LIST),
            4 => Some(LogicalType::ENUM),
            5 => Some(LogicalType::DECIMAL),
            6 => Some(LogicalType::DATE),
            7 => Some(LogicalType::TIME_MILLIS),
            8 => Some(LogicalType::TIME_MICROS),
            9 => Some(LogicalType::TIMESTAMP_MILLIS),
            10 => Some(LogicalType::TIMESTAMP_MICROS),
            11 => Some(LogicalType::UINT_8),
            12 => Some(LogicalType::UINT_16),
            13 => Some(LogicalType::UINT_32),
            14 => Some(LogicalType::UINT_64),
            15 => Some(LogicalType::INT_8),
            16 => Some(LogicalType::INT_16),
            17 => Some(LogicalType::INT_32),
            18 => Some(LogicalType::INT_64),
            19 => Some(LogicalType::JSON),
            20 => Some(LogicalType::BSON),
            21 => Some(LogicalType::INTERVAL),
            _ => None,
        }
    }

    /// The value that `name` names, if any.
    pub open spec fn of_name(name: Seq<char>) -> Option<LogicalType> {
        if name == "NONE"@ {
            Some(LogicalType::NONE)
        } else if name == "UTF8"@ {
            Some(LogicalType::UTF8)
        } else if name == "MAP"@ {
            Some(LogicalType::MAP)
        } else if name == "MAP_KEY_VALUE"@ {
            Some(LogicalType::MAP_KEY_VALUE)
        } else if name == "LIST"@ {
            Some(LogicalType::LIST)
        } else if name == "ENUM"@ {
            Some(LogicalType::ENUM)
        } else if name == "DECIMAL"@ {
            Some(LogicalType::DECIMAL)
        } else if name == "DATE"@ {
            Some(LogicalType::DATE)
        } else if name == "TIME_MILLIS"@ {
            Some(LogicalType::TIME_MILLIS)
        } else if name == "TIME_MICROS"@ {
            Some(LogicalType::TIME_MICROS)
        } else if name == "TIMESTAMP_MILLIS"@ {
            Some(LogicalType::TIMESTAMP_MILLIS)
        } else if name == "TIMESTAMP_MICROS"@ {
            Some(LogicalType::TIMESTAMP_MICROS)
        } else if name == "UINT_8"@ {
            Some(LogicalType::UINT_8)
        } else if name == "UINT_16"@ {
            Some(LogicalType::UINT_16)
        } else if name == "UINT_32"@ {
            Some(LogicalType::UINT_32)
        } else if name == "UINT_64"@ {
            Some(LogicalType::UINT_64)
        } else if name == "INT_8"@ {
            Some(LogicalType::INT_8)
        } else if name == "INT_16"@ {
            Some(LogicalType::INT_16)
        } else if name == "INT_32"@ {
            Some(LogicalType::INT_32)
        } else if name == "INT_64"@ {
            Some(LogicalType::INT_64)
        } else if name == "JSON"@ {
            Some(LogicalType::JSON)
        } else if name == "BSON"@ {
            Some(LogicalType::BSON)
        } else if name == "INTERVAL"@ {
            Some(LogicalType::INTERVAL)
        } else {
            None
        }
    }

    /// Reads a value from its name. A name that names none is an error
    /// that quotes it.
    pub fn from_str(s: &str) -> (r: Result<LogicalType, ParquetError>)
        ensures
            match LogicalType::of_name(s@) {
                Some(v) => r == Ok::<LogicalType, ParquetError>(v),
                None => r matches Err(ParquetError::General(m)) && m@ == "Invalid logical type "@ + s@,
            },
    {
        let text = s.to_owned();
        if same_text(&text, "NONE") {
            Ok(LogicalType::NONE)
        } else if same_text(&text, "UTF8") {
            Ok(LogicalType::UTF8)
        } else if same_text(&text, "MAP") {
            Ok(LogicalType::MAP)
        } else if same_text(&text, "MAP_KEY_VALUE") {
            Ok(LogicalType::MAP_KEY_VALUE)
        } else if same_text(&text, "LIST") {
            Ok(LogicalType::LIST)
        } else if same_text(&text, "ENUM") {
            Ok(LogicalType::ENUM)
        } else if same_text(&text, "DECIMAL") {
            Ok(LogicalType::DECIMAL)
        } else if same_text(&text, "DATE") {
            Ok(LogicalType::DATE)
        } else if same_text(&text, "TIME_MILLIS") {
            Ok(LogicalType::TIME_MILLIS)
        } else if same_text(&text, "TIME_MICROS") {
            Ok(LogicalType::TIME_MICROS)
        } else if same_text(&text, "TIMESTAMP_MILLIS") {
            Ok(LogicalType::TIMESTAMP_MILLIS)
        } else if same_text(&text, "TIMESTAMP_MICROS") {
            Ok(LogicalType::TIMESTAMP_MICROS)
        } else if same_text(&text, "UINT_8") {
            Ok(LogicalType::UINT_8)
        } else if same_text(&text, "UINT_16") {
            Ok(LogicalType::UINT_16)
        } else if same_text(&text, "UINT_32") {
            Ok(LogicalType::UINT_32)
        } else if same_text(&text, "UINT_64") {
            Ok(LogicalType::UINT_64)
        } else if same_text(&text, "INT_8") {
            Ok(LogicalType::INT_8)
        } else if same_text(&text, "INT_16") {
            Ok(LogicalType::INT_16)
        } else if same_text(&text, "INT_32") {
            Ok(LogicalType::INT_32)
        } else if same_text(&text, "INT_64") {
            Ok(LogicalType::INT_64)
        } else if same_text(&text, "JSON") {
            Ok(LogicalType::JSON)
        } else if same_text(&text, "BSON") {
            Ok(LogicalType::BSON)
        } else if same_text(&text, "INTERVAL") {
            Ok(LogicalType::INTERVAL)
        } else {
            Err(ParquetError::General(message("Invalid logical type ", s)))
        }
    }

    /// Reading the name of a value gives the value back.
    pub proof fn lemma_name_round_trip(self)
        ensures
            LogicalType::of_name(self.name()) == Some(self),
    {
        reveal_strlit("NONE");
        reveal_strlit("UTF8");
        reveal_strlit("MAP");
        reveal_strlit("MAP_KEY_VALUE");
        reveal_strlit("LIST");
        reveal_strlit("ENUM");
        reveal_strlit("DECIMAL");
        reveal_strlit("DATE");
        reveal_strlit("TIME_MILLIS");
        reveal_strlit("TIME_MICROS");
        reveal_strlit("TIMESTAMP_MILLIS");
        reveal_strlit("TIMESTAMP_MICROS");
        reveal_strlit("UINT_8");
        reveal_strlit("UINT_16");
        reveal_strlit("UINT_32");
        reveal_strlit("UINT_64");
        reveal_strlit("INT_8");
        reveal_strlit("INT_16");
        reveal_strlit("INT_32");
        reveal_strlit("INT_64");
        reveal_strlit("JSON");
        reveal_strlit("BSON");
        reveal_strlit("INTERVAL");
        match self {
            LogicalType::NONE => {
            },
            LogicalType::UTF8 => {
                assert("UTF8"@[0] != "NONE"@[0]);
            },
            LogicalType::MAP => {
                assert("MAP"@.len() != "NONE"@.len());
                assert("MAP"@.len() != "UTF8"@.len());
            },
            LogicalType::MAP_KEY_VALUE => {
                assert("MAP_KEY_VALUE"@.len() != "NONE"@.len());
                assert("MAP_KEY_VALUE"@.len() != "UTF8"@.len());
                assert("MAP_KEY_VALUE"@.len() != "MAP"@.len());
            },
            LogicalType::LIST => {
                assert("LIST"@[0] != "NONE"@[0]);
                assert("LIST"@[0] != "UTF8"@[0]);
                assert("LIST"@.len() != "MAP"@.len());
                assert("LIST"@.len() != "MAP_KEY_VALUE"@.len());
            },
            LogicalType::ENUM => {
                assert("ENUM"@[0] != "NONE"@[0]);
                assert("ENUM"@[0] != "UTF8"@[0]);
                assert("ENUM"@.len() != "MAP"@.len());
                assert("ENUM"@.len() != "MAP_KEY_VALUE"@.len());
                assert("ENUM"@[0] != "LIST"@[0]);
            },
            LogicalType::DECIMAL => {
                assert("DECIMAL"@.len() != "NONE"@.len());
                assert("DECIMAL"@.len() != "UTF8"@.len());
                assert("DECIMAL"@.len() != "MAP"@.len());
                assert("DECIMAL"@.len() != "MAP_KEY_VALUE"@.len());
                assert("DECIMAL"@.len() != "LIST"@.len());
                assert("DECIMAL"@.len() != "ENUM"@.len());
            },
            LogicalType::DATE => {
                assert("DATE"@[0] != "NONE"@[0]);
                assert("DATE"@[0] != "UTF8"@[0]);
                assert("DATE"@.len() != "MAP"@.len());
                assert("DATE"@.len() != "MAP_KEY_VALUE"@.len());
                assert("DATE"@[0] != "LIST"@[0]);
                assert("DATE"@[0] != "ENUM"@[0]);
                assert("DATE"@.len() != "DECIMAL"@.len());
            },
            LogicalType::TIME_MILLIS => {
                assert("TIME_MILLIS"@.len() != "NONE"@.len());
                assert("TIME_MILLIS"@.len() != "UTF8"@.len());
                assert("TIME_MILLIS"@.len() != "MAP"@.len());
                assert("TIME_MILLIS"@.len() != "MAP_KEY_VALUE"@.len());
                assert("TIME_MILLIS"@.len() != "LIST"@.len());
                assert("TIME_MILLIS"@.len() != "ENUM"@.len());
                assert("TIME_MILLIS"@.len() != "DECIMAL"@.len());
                assert("TIME_MILLIS"@.len() != "DATE"@.len());
            },
            LogicalType::TIME_MICROS => {
                assert("TIME_MICROS"@.len() != "NONE"@.len());
                assert("TIME_MICROS"@.len() != "UTF8"@.len());
                assert("TIME_MICROS"@.len() != "MAP"@.len());
                assert("TIME_MICROS"@.len() != "MAP_KEY_VALUE"@.len());
                assert("TIME_MICROS"@.len() != "LIST"@.len());
                assert("TIME_MICROS"@.len() != "ENUM"@.len());
                assert("TIME_MICROS"@.len() != "DECIMAL"@.len());
                assert("TIME_MICROS"@.len() != "DATE"@.len());
                assert("TIME_MICROS"@[7] != "TIME_MILLIS"@[7]);
            },
            LogicalType::TIMESTAMP_MILLIS => {
                assert("TIMESTAMP_MILLIS"@.len() != "NONE"@.len());
                assert("TIMESTAMP_MILLIS"@.len() != "UTF8"@.len());
                assert("TIMESTAMP_MILLIS"@.len() != "MAP"@.len());
                assert("TIMESTAMP_MILLIS"@.len() != "MAP_KEY_VALUE"@.len());
                assert("TIMESTAMP_MILLIS"@.len() != "LIST"@.len());
                assert("TIMESTAMP_MILLIS"@.len() != "ENUM"@.len());
                assert("TIMESTAMP_MILLIS"@.len() != "DECIMAL"@.len());
                assert("TIMESTAMP_MILLIS"@.len() != "DATE"@.len());
                assert("TIMESTAMP_MILLIS"@.len() != "TIME_MILLIS"@.len());
                assert("TIMESTAMP_MILLIS"@.len() != "TIME_MICROS"@.len());
            },
            LogicalType::TIMESTAMP_MICROS => {
                assert("TIMESTAMP_MICROS"@.len() != "NONE"@.len());
                assert("TIMESTAMP_MICROS"@.len() != "UTF8"@.len());
                assert("TIMESTAMP_MICROS"@.len() != "MAP"@.len());
                assert("TIMESTAMP_MICROS"@.len() != "MAP_KEY_VALUE"@.len());
                assert("TIMESTAMP_MICROS"@.len() != "LIST"@.len());
                assert("TIMESTAMP_MICROS"@.len() != "ENUM"@.len());
                assert("TIMESTAMP_MICROS"@.len() != "DECIMAL"@.len());
                assert("TIMESTAMP_MICROS"@.len() != "DATE"@.len());
                assert("TIMESTAMP_MICROS"@.len() != "TIME_MILLIS"@.len());
                assert("TIMESTAMP_MICROS"@.len() != "TIME_MICROS"@.len());
                assert("TIMESTAMP_MICROS"@[12] != "TIMESTAMP_MILLIS"@[12]);
            },
            LogicalType::UINT_8 => {
                assert("UINT_8"@.len() != "NONE"@.len());
                assert("UINT_8"@.len() != "UTF8"@.len());
                assert("UINT_8"@.len() != "MAP"@.len());
                assert("UINT_8"@.len() != "MAP_KEY_VALUE"@.len());
                assert("UINT_8"@.len() != "LIST"@.len());
                assert("UINT_8"@.len() != "ENUM"@.len());
                assert("UINT_8"@.len() != "DECIMAL"@.len());
                assert("UINT_8"@.len() != "DATE"@.len());
                assert("UINT_8"@.len() != "TIME_MILLIS"@.len());
                assert("UINT_8"@.len() != "TIME_MICROS"@.len());
                assert("UINT_8"@.len() != "TIMESTAMP_MILLIS"@.len());
                assert("UINT_8"@.len() != "TIMESTAMP_MICROS"@.len());
            },
            LogicalType::UINT_16 => {
                assert("UINT_16"@.len() != "NONE"@.len());
                assert("UINT_16"@.len() != "UTF8"@.len());
                assert("UINT_16"@.len() != "MAP"@.len());
                assert("UINT_16"@.len() != "MAP_KEY_VALUE"@.len());
                assert("UINT_16"@.len() != "LIST"@.len());
                assert("UINT_16"@.len() != "ENUM"@.len());
                assert("UINT_16"@[0] != "DECIMAL"@[0]);
                assert("UINT_16"@.len() != "DATE"@.len());
                assert("UINT_16"@.len() != "TIME_MILLIS"@.len());
                assert("UINT_16"@.len() != "TIME_MICROS"@.len());
                assert("UINT_16"@.len() != "TIMESTAMP_MILLIS"@.len());
                assert("UINT_16"@.len() != "TIMESTAMP_MICROS"@.len());
                assert("UINT_16"@.len() != "UINT_8"@.len());
            },
            LogicalType::UINT_32 => {
                assert("UINT_32"@.len() != "NONE"@.len());
                assert("UINT_32"@.len() != "UTF8"@.len());
                assert("UINT_32"@.len() != "MAP"@.len());
                assert("UINT_32"@.len() != "MAP_KEY_VALUE"@.len());
                assert("UINT_32"@.len() != "LIST"@.len());
                assert("UINT_32"@.len() != "ENUM"@.len());
                assert("UINT_32"@[0] != "DECIMAL"@[0]);
                assert("UINT_32"@.len() != "DATE"@.len());
                assert("UINT_32"@.len() != "TIME_MILLIS"@.len());
                assert("UINT_32"@.len() != "TIME_MICROS"@.len());
                assert("UINT_32"@.len() != "TIMESTAMP_MILLIS"@.len());
                assert("UINT_32"@.len() != "TIMESTAMP_MICROS"@.len());
                assert("UINT_32"@.len() != "UINT_8"@.len());
                assert("UINT_32"@[5] != "UINT_16"@[5]);
            },
            LogicalType::UINT_64 => {
                assert("UINT_64"@.len() != "NONE"@.len());
                assert("UINT_64"@.len() != "UTF8"@.len());
                assert("UINT_64"@.len() != "MAP"@.len());
                assert("UINT_64"@.len() != "MAP_KEY_VALUE"@.len());
                assert("UINT_64"@.len() != "LIST"@.len());
                assert("UINT_64"@.len() != "ENUM"@.len());
                assert("UINT_64"@[0] != "DECIMAL"@[0]);
                assert("UINT_64"@.len() != "DATE"@.len());
                assert("UINT_64"@.len() != "TIME_MILLIS"@.len());
                assert("UINT_64"@.len() != "TIME_MICROS"@.len());
                assert("UINT_64"@.len() != "TIMESTAMP_MILLIS"@.len());
                assert("UINT_64"@.len() != "TIMESTAMP_MICROS"@.len());
                assert("UINT_64"@.len() != "UINT_8"@.len());
                assert("UINT_64"@[5] != "UINT_16"@[5]);
                assert("UINT_64"@[5] != "UINT_32"@[5]);
            },
            LogicalType::INT_8 => {
                assert("INT_8"@.len() != "NONE"@.len());
                assert("INT_8"@.len() != "UTF8"@.len());
                assert("INT_8"@.len() != "MAP"@.len());
                assert("INT_8"@.len() != "MAP_KEY_VALUE"@.len());
                assert("INT_8"@.len() != "LIST"@.len());
                assert("INT_8"@.len() != "ENUM"@.len());
                assert("INT_8"@.len() != "DECIMAL"@.len());
                assert("INT_8"@.len() != "DATE"@.len());
                assert("INT_8"@.len() != "TIME_MILLIS"@.len());
                assert("INT_8"@.len() != "TIME_MICROS"@.len());
                assert("INT_8"@.len() != "TIMESTAMP_MILLIS"@.len());
                assert("INT_8"@.len() != "TIMESTAMP_MICROS"@.len());
                assert("INT_8"@.len() != "UINT_8"@.len());
                assert("INT_8"@.len() != "UINT_16"@.len());
                assert("INT_8"@.len() != "UINT_32"@.len());
                assert("INT_8"@.len() != "UINT_64"@.len());
            },
            LogicalType::INT_16 => {
                assert("INT_16"@.len() != "NONE"@.len());
                assert("INT_16"@.len() != "UTF8"@.len());
                assert("INT_16"@.len() != "MAP"@.len());
                assert("INT_16"@.len() != "MAP_KEY_VALUE"@.len());
                assert("INT_16"@.len() != "LIST"@.len());
                assert("INT_16"@.len() != "ENUM"@.len());
                assert("INT_16"@.len() != "DECIMAL"@.len());
                assert("INT_16"@.len() != "DATE"@.len());
                assert("INT_16"@.len() != "TIME_MILLIS"@.len());
                assert("INT_16"@.len() != "TIME_MICROS"@.len());
                assert("INT_16"@.len() != "TIMESTAMP_MILLIS"@.len());
                assert("INT_16"@.len() != "TIMESTAMP_MICROS"@.len());
                assert("INT_16"@[0] != "UINT_8"@[0]);
                assert("INT_16"@.len() != "UINT_16"@.len());
                assert("INT_16"@.len() != "UINT_32"@.len());
                assert("INT_16"@.len() != "UINT_64"@.len());
                assert("INT_16"@.len() != "INT_8"@.len());
            },
            LogicalType::INT_32 => {
                assert("INT_32"@.len() != "NONE"@.len());
                assert("INT_32"@.len() != "UTF8"@.len());
                assert("INT_32"@.len() != "MAP"@.len());
                assert("INT_32"@.len() != "MAP_KEY_VALUE"@.len());
                assert("INT_32"@.len() != "LIST"@.len());
                assert("INT_32"@.len() != "ENUM"@.len());
                assert("INT_32"@.len() != "DECIMAL"@.len());
                assert("INT_32"@.len() != "DATE"@.len());
                assert("INT_32"@.len() != "TIME_MILLIS"@.len());
                assert("INT_32"@.len() != "TIME_MICROS"@.len());
                assert("INT_32"@.len() != "TIMESTAMP_MILLIS"@.len());
                assert("INT_32"@.len() != "TIMESTAMP_MICROS"@.len());
                assert("INT_32"@[0] != "UINT_8"@[0]);
                assert("INT_32"@.len() != "UINT_16"@.len());
                assert("INT_32"@.len() != "UINT_32"@.len());
                assert("INT_32"@.len() != "UINT_64"@.len());
                assert("INT_32"@.len() != "INT_8"@.len());
                assert("INT_32"@[4] != "INT_16"@[4]);
            },
            LogicalType::INT_64 => {
                assert("INT_64"@.len() != "NONE"@.len());
                assert("INT_64"@.len() != "UTF8"@.len());
                assert("INT_64"@.len() != "MAP"@.len());
                assert("INT_64"@.len() != "MAP_KEY_VALUE"@.len());
                assert("INT_64"@.len() != "LIST"@.len());
                assert("INT_64"@.len() != "ENUM"@.len());
                assert("INT_64"@.len() != "DECIMAL"@.len());
                assert("INT_64"@.len() != "DATE"@.len());
                assert("INT_64"@.len() != "TIME_MILLIS"@.len());
                assert("INT_64"@.len() != "TIME_MICROS"@.len());
                assert("INT_64"@.len() != "TIMESTAMP_MILLIS"@.len());
                assert("INT_64"@.len() != "TIMESTAMP_MICROS"@.len());
                assert("INT_64"@[0] != "UINT_8"@[0]);
                assert("INT_64"@.len() != "UINT_16"@.len());
                assert("INT_64"@.len() != "UINT_32"@.len());
                assert("INT_64"@.len() != "UINT_64"@.len());
                assert("INT_64"@.len() != "INT_8"@.len());
                assert("INT_64"@[4] != "INT_16"@[4]);
                assert("INT_64"@[4] != "INT_32"@[4]);
            },
            LogicalType::JSON => {
                assert("JSON"@[0] != "NONE"@[0]);
                assert("JSON"@[0] != "UTF8"@[0]);
                assert("JSON"@.len() != "MAP"@.len());
                assert("JSON"@.len() != "MAP_KEY_VALUE"@.len());
                assert("JSON"@[0] != "LIST"@[0]);
                assert("JSON"@[0] != "ENUM"@[0]);
                assert("JSON"@.len() != "DECIMAL"@.len());
                assert("JSON"@[0] != "DATE"@[0]);
                assert("JSON"@.len() != "TIME_MILLIS"@.len());
                assert("JSON"@.len() != "TIME_MICROS"@.len());
                assert("JSON"@.len() != "TIMESTAMP_MILLIS"@.len());
                assert("JSON"@.len() != "TIMESTAMP_MICROS"@.len());
                assert("JSON"@.len() != "UINT_8"@.len());
                assert("JSON"@.len() != "UINT_16"@.len());
                assert("JSON"@.len() != "UINT_32"@.len());
                assert("JSON"@.len() != "UINT_64"@.len());
                assert("JSON"@.len() != "INT_8"@.len());
                assert("JSON"@.len() != "INT_16"@.len());
                assert("JSON"@.len() != "INT_32"@.len());
                assert("JSON"@.len() != "INT_64"@.len());
            },
            LogicalType::BSON => {
                assert("BSON"@[0] != "NONE"@[0]);
                assert("BSON"@[0] != "UTF8"@[0]);
                assert("BSON"@.len() != "MAP"@.len());
                assert("BSON"@.len() != "MAP_KEY_VALUE"@.len());
                assert("BSON"@[0] != "LIST"@[0]);
                assert("BSON"@[0] != "ENUM"@[0]);
                assert("BSON"@.len() != "DECIMAL"@.len());
                assert("BSON"@[0] != "DATE"@[0]);
                assert("BSON"@.len() != "TIME_MILLIS"@.len());
                assert("BSON"@.len() != "TIME_MICROS"@.len());
                assert("BSON"@.len() != "TIMESTAMP_MILLIS"@.len());
                assert("BSON"@.len() != "TIMESTAMP_MICROS"@.len());
                assert("BSON"@.len() != "UINT_8"@.len());
                assert("BSON"@.len() != "UINT_16"@.len());
                assert("BSON"@.len() != "UINT_32"@.len());
                assert("BSON"@.len() != "UINT_64"@.len());
                assert("BSON"@.len() != "INT_8"@.len());
                assert("BSON"@.len() != "INT_16"@.len());
                assert("BSON"@.len() != "INT_32"@.len());
                assert("BSON"@.len() != "INT_64"@.len());
                assert("BSON"@[0] != "JSON"@[0]);
            },
            LogicalType::INTERVAL => {
                assert("INTERVAL"@.len() != "NONE"@.len());
                assert("INTERVAL"@.len() != "UTF8"@.len());
                assert("INTERVAL"@.len() != "MAP"@.len());
                assert("INTERVAL"@.len() != "MAP_KEY_VALUE"@.len());
                assert("INTERVAL"@.len() != "LIST"@.len());
                assert("INTERVAL"@.len() != "ENUM"@.len());
                assert("INTERVAL"@.len() != "DECIMAL"@.len());
                assert("INTERVAL"@.len() != "DATE"@.len());
                assert("INTERVAL"@.len() != "TIME_MILLIS"@.len());
                assert("INTERVAL"@.len() != "TIME_MICROS"@.len());
                assert("INTERVAL"@.len() != "TIMESTAMP_MILLIS"@.len());
                assert("INTERVAL"@.len() != "TIMESTAMP_MICROS"@.len());
                assert("INTERVAL"@.len() != "UINT_8"@.len());
                assert("INTERVAL"@.len() != "UINT_16"@.len());
                assert("INTERVAL"@.len() != "UINT_32"@.len());
                assert("INTERVAL"@.len() != "UINT_64"@.len());
                assert("INTERVAL"@.len() != "INT_8"@.len());
                assert("INTERVAL"@.len() != "INT_16"@.len());
                assert("INTERVAL"@.len() != "INT_32"@.len());
                assert("INTERVAL"@.len() != "INT_64"@.len());
                assert("INTERVAL"@.len() != "JSON"@.len());
                assert("INTERVAL"@.len() != "BSON"@.len());
            },
        }
    }
}

impl std::str::FromStr for LogicalType {
    type Err = ParquetError;

    /// Reads a value from its name, as the function of the same name of
    /// the type itself does.
    fn from_str(s: &str) -> (r: Result<LogicalType, ParquetError>)
        ensures
            match LogicalType::of_name(s@) {
                Some(v) => r == Ok::<LogicalType, ParquetError>(v),
                None => r matches Err(ParquetError::General(m)) && m@ == "Invalid logical type "@ + s@,
            },
    {
        LogicalType::from_str(s)
    }
}

/// How often a field occurs in a record.
#[allow(non_camel_case_types)]
#[derive(Debug, Clone, Copy, PartialEq, Eq, Structural)]
pub enum Repetition {
    /// Exactly one value in each record.
    REQUIRED,
    /// At most one value in each record.
    OPTIONAL,
    /// Any number of values in each record.
    REPEATED,
}

impl Repetition {
    /// The name of the value, as the format writes it.
    pub open spec fn name(self) -> Seq<char> {
        match self {
            Repetition::REQUIRED => "REQUIRED"@,
            Repetition::OPTIONAL => "OPTIONAL"@,
            Repetition::REPEATED => "REPEATED"@,
        }
    }

    /// The value that has the number `code` in the format, if any.
    pub open spec fn of_code(code: int) -> Option<Repetition> {
        if code == 0 {
            Some(Repetition::REQUIRED)
        } else if code == 1 {
            Some(Repetition::OPTIONAL)
        } else if code == 2 {
            Some(Repetition::REPEATED)
        } else {
            None
        }
    }

    /// The name of the value, as the format writes it.
    pub fn to_string(&self) -> (s: String)
        ensures
            s@ == self.name(),
    {
        match self {
            Repetition::REQUIRED => "REQUIRED".to_string(),
            Repetition::OPTIONAL => "OPTIONAL".to_string(),
            Repetition::REPEATED => "REPEATED".to_string(),
        }
    }

    /// The value that has the number `code` in the format, if any.
    pub fn from_code(code: i32) -> (r: Option<Repetition>)
        ensures
            r == Repetition::of_code(code as int),
    {
        match code {
            0 => Some(Repetition::REQUIRED),
            1 => Some(Repetition::OPTIONAL),
            2 => Some(Repetition::REPEATED),
            _ => None,
        }
    }

    /// The value that `name` names, if any.
    pub open spec fn of_name(name: Seq<char>) -> Option<Repetition> {
        if name == "REQUIRED"@ {
            Some(Repetition::REQUIRED)
        } else if name == "OPTIONAL"@ {
            Some(Repetition::OPTIONAL)
        } else if name == "REPEATED"@ {
            Some(Repetition::REPEATED)
        } else {
            None
        }
    }

    /// Reads a value from its name. A name that names none is an error
    /// that quotes it.
    pub fn from_str(s: &str) -> (r: Result<Repetition, ParquetError>)
        ensures
            match Repetition::of_name(s@) {
                Some(v) => r == Ok::<Repetition, ParquetError>(v),
                None => r matches Err(ParquetError::General(m)) && m@ == "Invalid repetition "@ + s@,
            },
    {
        let text = s.to_owned();
        if same_text(&text, "REQUIRED") {
            Ok(Repetition::REQUIRED)
        } else if same_text(&text, "OPTIONAL") {
            Ok(Repetition::OPTIONAL)
        } else if same_text(&text, "REPEATED") {
            Ok(Repetition::REPEATED)
        } else {
            Err(ParquetError::General(message("Invalid repetition ", s)))
        }
    }

    /// Reading the name of a value gives the value back.
    pub proof fn lemma_name_round_trip(self)
        ensures
            Repetition::of_name(self.name()) == Some(self),
    {
        reveal_strlit("REQUIRED");
        reveal_strlit("OPTIONAL");
        reveal_strlit("REPEATED");
        match self {
            Repetition::REQUIRED => {
            },
            Repetition::OPTIONAL => {
                assert("OPTIONAL"@[0] != "REQUIRED"@[0]);
            },
            Repetition::REPEATED => {
                assert("REPEATED"@[2] != "REQUIRED"@[2]);
                assert("REPEATED"@[0] != "OPTIONAL"@[0]);
            },
        }
    }
}

impl std::str::FromStr for Repetition {
    type Err = ParquetError;

    /// Reads a value from its name, as the function of the same name of
    /// the type itself does.
    fn from_str(s: &str) -> (r: Result<Repetition, ParquetError>)
        ensures
            match Repetition::of_name(s@) {
                Some(v) => r == Ok::<Repetition, ParquetError>(v),
                None => r matches Err(ParquetError::General(m)) && m@ == "Invalid repetition "@ + s@,
            },
    {
        Repetition::from_str(s)
    }
}

/// The encodings of the format. Not every encoding suits every type.
#[allow(non_camel_case_types)]
#[derive(Debug, Clone, Copy, PartialEq, Eq, Hash, Structural)]
pub enum Encoding {
    /// Values back to back in their plain layout.
    PLAIN,
    /// The older name of the dictionary encoding.
    PLAIN_DICTIONARY,
    /// Run-length and bit-packed hybrid.
    RLE,
    /// Bit packing at a known width.
    BIT_PACKED,
    /// Deltas in bit-packed blocks, for INT32 and INT64.
    DELTA_BINARY_PACKED,
    /// Lengths as deltas, followed by the bytes.
    DELTA_LENGTH_BYTE_ARRAY,
    /// Shared-prefix lengths as deltas, followed by the suffixes.
    DELTA_BYTE_ARRAY,
    /// Dictionary indices in the run-length hybrid.
    RLE_DICTIONARY,
}

impl Encoding {
    /// The name of the value, as the format writes it.
    pub open spec fn name(self) -> Seq<char> {
        match self {
            Encoding::PLAIN => "PLAIN"@,
            Encoding::PLAIN_DICTIONARY => "PLAIN_DICTIONARY"@,
            Encoding::RLE => "RLE"@,
            Encoding::BIT_PACKED => "BIT_PACKED"@,
            Encoding::DELTA_BINARY_PACKED => "DELTA_BINARY_PACKED"@,
            Encoding::DELTA_LENGTH_BYTE_ARRAY => "DELTA_LENGTH_BYTE_ARRAY"@,
            Encoding::DELTA_BYTE_ARRAY => "DELTA_BYTE_ARRAY"@,
            Encoding::RLE_DICTIONARY => "RLE_DICTIONARY"@,
        }
    }

    /// The value that has the number `code` in the format, if any.
    pub open spec fn of_code(code: int) -> Option<Encoding> {
        if code == 0 {
            Some(Encoding::PLAIN)
        } else if code == 2 {
            Some(Encoding::PLAIN_DICTIONARY)
        } else if code == 3 {
            Some(Encoding::RLE)
        } else if code == 4 {
            Some(Encoding::BIT_PACKED)
        } else if code == 5 {
            Some(Encoding::DELTA_BINARY_PACKED)
        } else if code == 6 {
            Some(Encoding::DELTA_LENGTH_BYTE_ARRAY)
        } else if code == 7 {
            Some(Encoding::DELTA_BYTE_ARRAY)
        } else if code == 8 {
            Some(Encoding::RLE_DICTIONARY)
        } else {
            None
        }
    }

    /// The name of the value, as the format writes it.
    pub fn to_string(&self) -> (s: String)
        ensures
            s@ == self.name(),
    {
        match self {
            Encoding::PLAIN => "PLAIN".to_string(),
            Encoding::PLAIN_DICTIONARY => "PLAIN_DICTIONARY".to_string(),
            Encoding::RLE => "RLE".to_string(),
            Encoding::BIT_PACKED => "BIT_PACKED".to_string(),
            Encoding::DELTA_BINARY_PACKED => "DELTA_BINARY_PACKED".to_string(),
            Encoding::DELTA_LENGTH_BYTE_ARRAY => "DELTA_LENGTH_BYTE_ARRAY".to_string(),
            Encoding::DELTA_BYTE_ARRAY => "DELTA_BYTE_ARRAY".to_string(),
            Encoding::RLE_DICTIONARY => "RLE_DICTIONARY".to_string(),
        }
    }

    /// The value that has the number `code` in the format, if any.
    pub fn from_code(code: i32) -> (r: Option<Encoding>)
        ensures
            r == Encoding::of_code(code as int),
    {
        match code {
            0 => Some(Encoding::PLAIN),
            2 => Some(Encoding::PLAIN_DICTIONARY),
            3 => Some(Encoding::RLE),
            4 => Some(Encoding::BIT_PACKED),
            5 => Some(Encoding::DELTA_BINARY_PACKED),
            6 => Some(Encoding::DELTA_LENGTH_BYTE_ARRAY),
            7 => Some(Encoding::DELTA_BYTE_ARRAY),
            8 => Some(Encoding::RLE_DICTIONARY),
            _ => None,
        }
    }
}

/// The compression codecs of the format.
#[allow(non_camel_case_types)]
#[derive(Debug, Clone, Copy, PartialEq, Eq, Structural)]
pub enum Compression {
    UNCOMPRESSED,
    SNAPPY,
    GZIP,
    LZO,
    BROTLI,
    LZ4,
    ZSTD,
}

impl Compression {
    /// The name of the value, as the format writes it.
    pub open spec fn name(self) -> Seq<char> {
        match self {
            Compression::UNCOMPRESSED => "UNCOMPRESSED"@,
            Compression::SNAPPY => "SNAPPY"@,
            Compression::GZIP => "GZIP"@,
            Compression::LZO => "LZO"@,
            Compression::BROTLI => "BROTLI"@,
            Compression::LZ4 => "LZ4"@,
            Compression::ZSTD => "ZSTD"@,
        }
    }

    /// The value that has the number `code` in the format, if any.
    pub open spec fn of_code(code: int) -> Option<Compression> {
        if code == 0 {
            Some(Compression::UNCOMPRESSED)
        } else if code == 1 {
            Some(Compression::SNAPPY)
        } else if code == 2 {
            Some(Compression::GZIP)
        } else if code == 3 {
            Some(Compression::LZO)
        } else if code == 4 {
            Some(Compression::BROTLI)
        } else if code == 5 {
            Some(Compression::LZ4)
        } else if code == 6 {
            Some(Compression::ZSTD)
        } else {
            None
        }
    }

    /// The name of the value, as the format writes it.
    pub fn to_string(&self) -> (s: String)
        ensures
            s@ == self.name(),
    {
        match self {
            Compression::UNCOMPRESSED => "UNCOMPRESSED".to_string(),
            Compression::SNAPPY => "SNAPPY".to_string(),
            Compression::GZIP => "GZIP".to_string(),
            Compression::LZO => "LZO".to_string(),
            Compression::BROTLI => "BROTLI".to_string(),
            Compression::LZ4 => "LZ4".to_string(),
            Compression::ZSTD => "ZSTD".to_string(),
        }
    }

    /// The value that has the number `code` in the format, if any.
    pub fn from_code(code: i32) -> (r: Option<Compression>)
        ensures
            r == Compression::of_code(code as int),
    {
        match code {
            0 => Some(Compression::UNCOMPRESSED),
            1 => Some(Compression::SNAPPY),
            2 => Some(Compression::GZIP),
            3 => Some(Compression::LZO),
            4 => Some(Compression::BROTLI),
            5 => Some(Compression::LZ4),
            6 => Some(Compression::ZSTD),
            _ => None,
        }
    }
}

/// The kinds of page of the format.
#[allow(non_camel_case_types)]
#[derive(Debug, Clone, Copy, PartialEq, Eq, Structural)]
pub enum PageType {
    DATA_PAGE,
    INDEX_PAGE,
    DICTIONARY_PAGE,
    DATA_PAGE_V2,
}

impl PageType {
    /// The name of the value, as the format writes it.
    pub open spec fn name(self) -> Seq<char> {
        match self {
            PageType::DATA_PAGE => "DATA_PAGE"@,
            PageType::INDEX_PAGE => "INDEX_PAGE"@,
            PageType::DICTIONARY_PAGE => "DICTIONARY_PAGE"@,
            PageType::DATA_PAGE_V2 => "DATA_PAGE_V2"@,
        }
    }

    /// The value that has the number `code` in the format, if any.
    pub open spec fn of_code(code: int) -> Option<PageType> {
        if code == 0 {
            Some(PageType::DATA_PAGE)
        } else if code == 1 {
            Some(PageType::INDEX_PAGE)
        } else if code == 2 {
            Some(PageType::DICTIONARY_PAGE)
        } else if code == 3 {
            Some(PageType::DATA_PAGE_V2)
        } else {
            None
        }
    }

    /// The name of the value, as the format writes it.
    pub fn to_string(&self) -> (s: String)
        ensures
            s@ == self.name(),
    {
        match self {
            PageType::DATA_PAGE => "DATA_PAGE".to_string(),
            PageType::INDEX_PAGE => "INDEX_PAGE".to_string(),
            PageType::DICTIONARY_PAGE => "DICTIONARY_PAGE".to_string(),
            PageType::DATA_PAGE_V2 => "DATA_PAGE_V2".to_string(),
        }
    }

    /// The value that has the number `code` in the format, if any.
    pub fn from_code(code: i32) -> (r: Option<PageType>)
        ensures
            r == PageType::of_code(code as int),
    {
        match code {
            0 => Some(PageType::DATA_PAGE),
            1 => Some(PageType::INDEX_PAGE),
            2 => Some(PageType::DICTIONARY_PAGE),
            3 => Some(PageType::DATA_PAGE_V2),
            _ => None,
        }
    }
}

} // verus!
