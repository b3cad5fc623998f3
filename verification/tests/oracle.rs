use libcsv::{apply_filters, process_csv_impl, CsvError};

/// A second, plain implementation of the engine on top of the standard
/// library, to hold the verified one against.
fn parse(filter: &str) -> Option<(String, &'static str, String)> {
    let mut symbol = "";
    for candidate in ["<=", ">=", "!=", "=", "<", ">"] {
        if filter.contains(candidate) {
            symbol = candidate;
            break;
        }
    }
    if symbol.is_empty() {
        return None;
    }
    let parts: Vec<&str> = filter.split(symbol).collect();
    if parts.len() != 2 || parts[0].trim().is_empty() || parts[1].trim().is_empty() {
        return None;
    }
    Some((parts[0].trim().to_string(), symbol, parts[1].trim().to_string()))
}

fn accepts(symbol: &str, left: &str, right: &str) -> bool {
    match symbol {
        "<=" => left <= right,
        ">=" => left >= right,
        "!=" => left != right,
        "=" => left == right,
        "<" => left < right,
        _ => left > right,
    }
}

fn judge(
    row: &[String],
    filters: &[(String, &'static str, String)],
    headers: &[String],
) -> Result<bool, CsvError> {
    let index = |name: &String| headers.iter().position(|h| h == name).unwrap();
    for (column, _, _) in filters {
        if index(column) >= row.len() {
            return Err(CsvError::FieldNotFound(column.clone()));
        }
    }
    Ok(filters.iter().all(|(column, _, _)| {
        filters
            .iter()
            .any(|(c, symbol, value)| c == column && accepts(symbol, &row[index(c)], value))
    }))
}

fn expected(csv: &str, selected: &str, block: &str) -> Result<String, CsvError> {
    let mut lines = csv.lines();
    let headers: Vec<String> = match lines.next() {
        Some(line) => line.split(',').map(|s| s.trim().to_string()).collect(),
        None => return Err(CsvError::NoHeaders),
    };
    let wanted: Vec<String> = selected.split(',').map(|s| s.trim().to_string()).collect();
    let filters: Vec<(String, &'static str, String)> = block.split('\n').filter_map(parse).collect();
    for name in &wanted {
        if !headers.contains(name) {
            return Err(CsvError::HeaderNotFound(name.clone()));
        }
    }
    for (column, _, _) in &filters {
        if !headers.contains(column) {
            return Err(CsvError::HeaderNotFound(column.clone()));
        }
    }
    let index = |name: &String| headers.iter().position(|h| h == name).unwrap();
    let cols: Vec<usize> = headers
        .iter()
        .filter(|h| wanted.contains(h))
        .map(|h| index(h))
        .collect();
    let top: Vec<&str> = cols.iter().map(|&c| headers[c].as_str()).collect();
    let mut out = top.join(",");
    for line in lines {
        let row: Vec<String> = line.split(',').map(|s| s.trim().to_string()).collect();
        if !judge(&row, &filters, &headers)? {
            continue;
        }
        for &c in &cols {
            if c >= row.len() {
                return Err(CsvError::FieldNotFound(headers[c].clone()));
            }
        }
        let picked: Vec<&str> = cols.iter().map(|&c| row[c].as_str()).collect();
        out.push('\n');
        out.push_str(&picked.join(","));
    }
    Ok(out)
}

struct Source(u64);

impl Source {
    fn below(&mut self, n: usize) -> usize {
        self.0 = self
            .0
            .wrapping_mul(6364136223846793005)
            .wrapping_add(1442695040888963407);
        ((self.0 >> 33) as usize) % n
    }

    fn pick<'a>(&mut self, items: &[&'a str]) -> &'a str {
        items[self.below(items.len())]
    }

    fn list(&mut self, items: &[&str], max: usize, sep: &str) -> String {
        let n = self.below(max + 1);
        let mut parts = Vec::new();
        let mut k = 0;
        while k < n {
            parts.push(self.pick(items).to_string());
            k += 1;
        }
        parts.join(sep)
    }

    fn filter(&mut self) -> String {
        let column = self.pick(&["a", "b", "c", " a", "b ", "x", "", "a=b"]);
        let symbol = self.pick(&["<=", ">=", "!=", "=", "<", ">", "-", " = ", "=="]);
        let value = self.pick(&["0", "1", "2", "10", " 1 ", "", "b", "1<2"]);
        format!("{}{}{}", column, symbol, value)
    }

    fn filters(&mut self) -> String {
        let n = self.below(4);
        let mut parts = Vec::new();
        let mut k = 0;
        while k < n {
            parts.push(self.filter());
            k += 1;
        }
        parts.join("\n")
    }

    fn table(&mut self) -> String {
        let names = ["a", "b", "c", " a ", "", "b"];
        let values = ["0", "1", "2", "10", " 1", "", "b"];
        let mut lines = Vec::new();
        let header = self.below(4) + 1;
        let mut fields = Vec::new();
        let mut k = 0;
        while k < header {
            fields.push(self.pick(&names).to_string());
            k += 1;
        }
        lines.push(fields.join(","));
        let rows = self.below(5);
        let mut r = 0;
        while r < rows {
            let width = if self.below(5) == 0 {
                self.below(header + 2)
            } else {
                header
            };
            let mut fields = Vec::new();
            let mut k = 0;
            while k < width {
                fields.push(self.pick(&values).to_string());
                k += 1;
            }
            lines.push(fields.join(","));
            r += 1;
        }
        let end = self.pick(&["", "", "\n", "\r\n"]);
        let sep = self.pick(&["\n", "\n", "\r\n"]);
        format!("{}{}", lines.join(sep), end)
    }
}

#[test]
fn generated_runs_agree_with_the_plain_implementation() {
    let mut source = Source(0x9E37_79B9_7F4A_7C15);
    let mut oks = 0;
    let mut n = 0;
    while n < 20000 {
        let csv = source.table();
        let selected = source.list(&["a", "b", "c", " a", "b "], 3, ",");
        let block = source.filters();
        let got = process_csv_impl(&csv, &selected, &block);
        let want = expected(&csv, &selected, &block);
        assert_eq!(got, want, "{:?} {:?} {:?}", csv, selected, block);
        if got.is_ok() {
            oks += 1;
        }
        n += 1;
    }
    assert!(oks > 1000, "{}", oks);
}

#[test]
fn generated_rows_are_judged_as_by_the_plain_implementation() {
    let mut source = Source(0x0123_4567_89AB_CDEF);
    let headers = ["a", "b", "c"];
    let names: Vec<String> = headers.iter().map(|h| h.to_string()).collect();
    let mut n = 0;
    while n < 20000 {
        let width = source.below(5);
        let mut row = Vec::new();
        let mut k = 0;
        while k < width {
            row.push(source.pick(&["0", "1", "2", "10", "", "b"]));
            k += 1;
        }
        let count = source.below(4);
        let mut texts = Vec::new();
        let mut k = 0;
        while k < count {
            texts.push(source.filter());
            k += 1;
        }
        let filters: Vec<&str> = texts.iter().map(|t| t.as_str()).collect();
        let got = apply_filters(&row, &filters, &headers);
        let parsed: Vec<(String, &'static str, String)> =
            filters.iter().filter_map(|f| parse(f)).collect();
        let want = match parsed.iter().find(|(c, _, _)| !names.contains(c)) {
            Some((c, _, _)) => Err(CsvError::HeaderNotFound(c.clone())),
            None => {
                let owned: Vec<String> = row.iter().map(|f| f.to_string()).collect();
                judge(&owned, &parsed, &names)
            }
        };
        assert_eq!(got, want, "{:?} {:?}", row, filters);
        n += 1;
    }
}
