use period_predictor::date::{date, from_ymd, Date};
use period_predictor::parse::{
    get_data, parse_date, parse_date_pair, parse_many_date_pairs, ParseError,
};

#[test]
fn parse_date_test() {
    assert_eq!(parse_date("20.11.20"), Ok(("", date(2020, 11, 20))));
    assert_eq!(parse_date("28.12.20"), Ok(("", date(2020, 12, 28))));
    assert_eq!(parse_date("13.05.21"), Ok(("", date(2021, 5, 13))));
    assert_eq!(parse_date("24.09.21"), Ok(("", date(2021, 9, 24))));
    assert_eq!(parse_date("09.05.22"), Ok(("", date(2022, 5, 9))));
    assert_eq!(parse_date("17.10.22"), Ok(("", date(2022, 10, 17))));
}

#[test]
fn parse_date_pair_test() {
    assert_eq!(
        parse_date_pair("20.11.20-29.11.20"),
        Ok(("", (date(2020, 11, 20), Some(date(2020, 11, 29)))))
    );
    assert_eq!(
        parse_date_pair("30.01.21-06.02.21"),
        Ok(("", (date(2021, 1, 30), Some(date(2021, 2, 6)))))
    );
    assert_eq!(
        parse_date_pair("29.12.21-04.01.22"),
        Ok(("", (date(2021, 12, 29), Some(date(2022, 1, 4)))))
    );
    assert_eq!(
        parse_date_pair("07.03.21-??"),
        Ok(("", (date(2021, 3, 7), None)))
    );
    assert_eq!(
        parse_date_pair("24.09.21-??"),
        Ok(("", (date(2021, 9, 24), None)))
    );
    assert_eq!(
        parse_date_pair("17.10.22-??"),
        Ok(("", (date(2022, 10, 17), None)))
    );
}

#[test]
fn day_numbers_count_from_year_one() {
    assert_eq!(date(1, 1, 1), Date { days: 1 });
    assert_eq!(date(2022, 1, 1).days, 738156);
    assert_eq!(date(2022, 1, 29).days - date(2022, 1, 1).days, 28);
    assert_eq!(date(2020, 3, 1).days - date(2020, 2, 28).days, 2);
    assert_eq!(from_ymd(2021, 2, 29), None);
    assert_eq!(from_ymd(2021, 13, 1), None);
    assert_eq!(from_ymd(400000, 1, 1), None);
    assert_eq!(from_ymd(2024, 2, 29), Some(date(2024, 2, 29)));
}

#[test]
fn parse_date_keeps_rest_and_signs() {
    assert_eq!(parse_date("01.02.03-x"), Ok(("-x", date(2003, 2, 1))));
    assert_eq!(parse_date("01.02.-1"), Ok(("", date(1999, 2, 1))));
    assert_eq!(parse_date("01.02.+22"), Ok(("", date(2022, 2, 1))));
    assert_eq!(parse_date("1.2.22€"), Ok(("€", date(2022, 2, 1))));
}

#[test]
fn parse_date_errors() {
    assert_eq!(parse_date(""), Err(ParseError::Malformed));
    assert_eq!(parse_date("x1.02.03"), Err(ParseError::Malformed));
    assert_eq!(parse_date("01-02.03"), Err(ParseError::Malformed));
    assert_eq!(parse_date("01.02."), Err(ParseError::Malformed));
    assert_eq!(parse_date("4294967296.01.20"), Err(ParseError::Malformed));
    assert_eq!(parse_date("31.04.21"), Err(ParseError::InvalidDate));
    assert_eq!(parse_date("29.02.21"), Err(ParseError::InvalidDate));
    assert_eq!(parse_date("01.01.2147483647"), Err(ParseError::InvalidDate));
}

#[test]
fn parse_date_pair_errors() {
    assert_eq!(parse_date_pair("20.11.20"), Err(ParseError::Malformed));
    assert_eq!(parse_date_pair("20.11.20-?"), Err(ParseError::Malformed));
    assert_eq!(parse_date_pair("20.11.20-31.11.20"), Err(ParseError::InvalidDate));
}

#[test]
fn parse_many_stops_before_bad_line() {
    let text = "20.11.20-29.11.20\n30.01.21-??\n";
    assert_eq!(
        parse_many_date_pairs(text),
        Ok((
            "\n",
            vec![
                (date(2020, 11, 20), Some(date(2020, 11, 29))),
                (date(2021, 1, 30), None)
            ]
        ))
    );
    assert_eq!(
        parse_many_date_pairs("20.11.20-??\nnotes"),
        Ok(("\nnotes", vec![(date(2020, 11, 20), None)]))
    );
    assert_eq!(
        parse_many_date_pairs("20.11.20-??\n30.02.21-??"),
        Err(ParseError::InvalidDate)
    );
    assert_eq!(parse_many_date_pairs("?"), Err(ParseError::Malformed));
}

#[test]
fn get_data_takes_start_dates() {
    let text = "20.11.20-29.11.20\n18.12.20-??\n15.01.21-20.01.21";
    assert_eq!(
        get_data(text),
        Ok(vec![date(2020, 11, 20), date(2020, 12, 18), date(2021, 1, 15)])
    );
    assert_eq!(get_data(""), Err(ParseError::Malformed));
}
